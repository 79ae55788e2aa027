//! The catalog of pieces and the integer rules of the pieces' drawings.
use vstd::prelude::*;

use crate::lsystem::{expand, expand_symbol, lemma_expand_single, Command, LSystem, LSystemModel};
use crate::text::same_text;

verus! {

/// A named drawing that can be shown or rendered into the gallery.
#[derive(Clone, Copy, Debug)]
pub struct PieceInfo {
    pub title: &'static str,
    pub description: &'static str,
}

/// The titles of the pieces, in catalog order.
pub open spec fn piece_titles() -> Seq<Seq<char>> {
    seq!["koch"@, "noise"@, "squares"@, "square-spirals"@]
}

/// The descriptions of the pieces, in catalog order.
pub open spec fn piece_descriptions() -> Seq<Seq<char>> {
    seq![
        "Animated Koch snowflake"@,
        "Examples of fractal brownian motion noise functions"@,
        "Noisy squares"@,
        "Spirallig squares"@,
    ]
}

/// All pieces, in catalog order.
pub fn all_pieces() -> (pieces: Vec<PieceInfo>)
    ensures
        pieces.len() == piece_titles().len(),
        forall|i: int| 0 <= i < pieces.len() ==> #[trigger] pieces@[i].title@ == piece_titles()[i],
        forall|i: int|
            0 <= i < pieces.len() ==> #[trigger] pieces@[i].description@ == piece_descriptions()[i],
{
    let pieces = vec![
        PieceInfo { title: "koch", description: "Animated Koch snowflake" },
        PieceInfo {
            title: "noise",
            description: "Examples of fractal brownian motion noise functions",
        },
        PieceInfo { title: "squares", description: "Noisy squares" },
        PieceInfo { title: "square-spirals", description: "Spirallig squares" },
    ];
    pieces
}

/// Why a piece name was refused.
#[derive(Clone, Copy, Debug, PartialEq, Eq, Structural)]
pub enum PieceError {
    /// No piece has this title.
    UnknownPiece,
}

impl PieceError {
    /// The message that describes this error.
    pub fn message(&self) -> (r: String)
        ensures
            r@ == "Unknown piece"@,
    {
        "Unknown piece".to_owned()
    }
}

/// The catalog position of the first piece titled `s`.
pub fn parse_piece(s: &str) -> (r: Result<usize, PieceError>)
    ensures
        match r {
            Ok(i) => i < piece_titles().len() && piece_titles()[i as int] == s@ && forall|j: int|
                0 <= j < i ==> piece_titles()[j] != s@,
            Err(e) => e == PieceError::UnknownPiece && forall|j: int|
                0 <= j < piece_titles().len() ==> piece_titles()[j] != s@,
        },
{
    let pieces = all_pieces();
    let mut i: usize = 0;
    while i < pieces.len()
        invariant
            pieces.len() == piece_titles().len(),
            forall|k: int| 0 <= k < pieces.len() ==> #[trigger] pieces@[k].title@ == piece_titles()[k],
            i <= pieces.len(),
            forall|j: int| 0 <= j < i ==> piece_titles()[j] != s@,
        decreases pieces.len() - i,
    {
        if same_text(pieces[i].title, s) {
            return Ok(i);
        }
        i = i + 1;
    }
    Err(PieceError::UnknownPiece)
}

/// The L-system of the Koch curve: `F` rewritten to `F+F--F+F`, every `F`
/// drawn as a segment.
pub fn koch_curve() -> (r: LSystem)
    ensures
        r@.initiator == "F"@,
        r@.rules == Map::<char, Seq<char>>::empty().insert('F', "F+F--F+F"@),
        r@.terminals,
{
    LSystem::new().initiator("F").rule('F', "F+F--F+F").terminals(true)
}

/// The Koch curve as an L-system model.
pub open spec fn koch_model() -> LSystemModel {
    LSystemModel {
        initiator: "F"@,
        rules: Map::<char, Seq<char>>::empty().insert('F', "F+F--F+F"@),
        terminals: true,
    }
}

/// Number of drawn segments among the instructions.
pub open spec fn segment_count(commands: Seq<Command>) -> nat
    decreases commands.len(),
{
    if commands.len() == 0 {
        0
    } else {
        segment_count(commands.drop_last()) + if commands.last() is Draw {
            1nat
        } else {
            0nat
        }
    }
}

proof fn lemma_segment_count_concat(a: Seq<Command>, b: Seq<Command>)
    ensures
        segment_count(a + b) == segment_count(a) + segment_count(b),
    decreases b.len(),
{
    if b.len() == 0 {
        assert(a + b =~= a);
    } else {
        assert((a + b).drop_last() =~= a + b.drop_last());
        lemma_segment_count_concat(a, b.drop_last());
    }
}

proof fn lemma_segment_count_step(m: LSystemModel, w: Seq<char>, depth: u32)
    requires
        w.len() > 0,
    ensures
        segment_count(expand(m, w, depth)) == segment_count(expand(m, w.drop_last(), depth))
            + segment_count(expand_symbol(m, w.last(), depth)),
{
    lemma_segment_count_concat(expand(m, w.drop_last(), depth), expand_symbol(m, w.last(), depth));
}

/// Number of `F` symbols in a word.
pub open spec fn f_count(w: Seq<char>) -> nat
    decreases w.len(),
{
    if w.len() == 0 {
        0
    } else {
        f_count(w.drop_last()) + if w.last() == 'F' {
            1nat
        } else {
            0nat
        }
    }
}

/// A Koch word of `F`, `+` and `-` draws, per `F`, what one `F` draws.
proof fn lemma_koch_word(w: Seq<char>, d: u32)
    requires
        forall|i: int| 0 <= i < w.len() ==> w[i] == 'F' || w[i] == '+' || w[i] == '-',
    ensures
        segment_count(expand(koch_model(), w, d)) == f_count(w) * segment_count(
            expand_symbol(koch_model(), 'F', d),
        ),
    decreases w.len(),
{
    if w.len() > 0 {
        let m = koch_model();
        let c = w.last();
        lemma_koch_word(w.drop_last(), d);
        lemma_segment_count_step(m, w, d);
        if c != 'F' {
            let turn = expand_symbol(m, c, d);
            assert(turn.len() == 1 && !(turn.last() is Draw));
            assert(turn.drop_last() =~= Seq::<Command>::empty());
            assert(segment_count(Seq::<Command>::empty()) == 0);
            assert(segment_count(turn) == 0);
        }
        let k = f_count(w.drop_last());
        let x = segment_count(expand_symbol(m, 'F', d));
        assert(segment_count(expand(m, w, d)) == k * x + segment_count(expand_symbol(m, c, d)));
        if c == 'F' {
            assert(f_count(w) == k + 1);
            assert((k + 1) * x == k * x + x) by (nonlinear_arith);
        } else {
            assert(f_count(w) == k);
        }
    } else {
        assert(segment_count(expand(koch_model(), w, d)) == 0);
        assert(f_count(w) == 0);
    }
}

/// Each level of the Koch curve replaces every segment by four: expanded to
/// depth `n` it draws `4^n` segments.
pub proof fn lemma_koch_segments(n: u32)
    ensures
        segment_count(expand(koch_model(), koch_model().initiator, n))
            == vstd::arithmetic::power::pow(4, n as nat),
    decreases n,
{
    reveal_strlit("F");
    reveal_strlit("F+F--F+F");
    reveal(vstd::arithmetic::power::pow);
    let m = koch_model();
    assert(m.initiator == seq!['F']);
    lemma_expand_single(m, 'F', n);
    if n == 0 {
        assert(expand_symbol(m, 'F', n) == seq![Command::Draw(0)]);
        assert(seq![Command::Draw(0)].drop_last() =~= Seq::<Command>::empty());
        assert(segment_count(Seq::<Command>::empty()) == 0);
        assert(segment_count(seq![Command::Draw(0)]) == 1);
    } else {
        let d = (n - 1) as u32;
        let w = seq!['F', '+', 'F', '-', '-', 'F', '+', 'F'];
        lemma_koch_segments(d);
        lemma_expand_single(m, 'F', d);
        assert(m.rules.contains_key('F'));
        assert(m.rules['F'] == w);
        assert(expand_symbol(m, 'F', n) == expand(m, w, d));
        lemma_koch_word(w, d);
        reveal_with_fuel(f_count, 9);
    }
}

/// What the square-spirals drawing does with one square.
#[derive(Clone, Copy, Debug, PartialEq, Eq, Structural)]
pub enum Tile {
    /// Split the square into four, each handled at this next level.
    Subdivide(u32),
    /// Draw a spiral of this many nested squares.
    Spiral(u32),
}

/// Whether `value` is a multiple of `divisor`, as `u32::is_multiple_of` says
/// (only zero is a multiple of zero).
pub open spec fn is_multiple(value: u32, divisor: u32) -> bool {
    if divisor == 0 {
        value == 0
    } else {
        value % divisor == 0
    }
}

/// The choice for a square at `level`, given the next random number: split
/// when the number is a multiple of the level, else draw `32 - level` turns.
pub fn tile_step(random: u32, level: u32) -> (r: Tile)
    requires
        is_multiple(random, level) ==> level <= u32::MAX / 2,
        !is_multiple(random, level) ==> level <= 32,
    ensures
        r == if is_multiple(random, level) {
            Tile::Subdivide((level * 2) as u32)
        } else {
            Tile::Spiral((32 - level) as u32)
        },
{
    let multiple = if level == 0 {
        random == 0
    } else {
        random % level == 0
    };
    if multiple {
        Tile::Subdivide(level * 2)
    } else {
        Tile::Spiral(32 - level)
    }
}

} // verus!
