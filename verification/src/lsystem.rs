use std::collections::HashMap;
use vstd::prelude::*;

verus! {

broadcast use vstd::std_specs::hash::group_hash_axioms;

/// One turtle instruction produced by expanding an L-system.
#[derive(Clone, Copy, Debug, PartialEq, Eq, Structural)]
pub enum Command {
    /// Move forward one step without drawing (`.`).
    Advance,
    /// Move forward one step and draw a segment; carries the remaining
    /// expansion depth at which the segment was produced (`|` and terminals).
    Draw(u32),
    /// Rotate by the first configured angle (`-`).
    TurnFirst,
    /// Rotate by the second configured angle (`+`).
    TurnSecond,
    /// Save the turtle state and shrink the step (`[`).
    Push,
    /// Restore the most recently saved turtle state, if any (`]`).
    Pop,
}

/// The mathematical content of an L-system.
pub struct LSystemModel {
    pub initiator: Seq<char>,
    pub rules: Map<char, Seq<char>>,
    pub terminals: bool,
}

/// Expansion of a word at the given depth.
pub open spec fn expand(m: LSystemModel, word: Seq<char>, depth: u32) -> Seq<Command>
    decreases depth, word.len(),
{
    if word.len() == 0 {
        seq![]
    } else {
        expand(m, word.drop_last(), depth) + expand_symbol(m, word.last(), depth)
    }
}

/// Expansion of a single symbol at the given depth.
pub open spec fn expand_symbol(m: LSystemModel, c: char, depth: u32) -> Seq<Command>
    decreases depth, 0nat,
{
    if c == '.' {
        seq![Command::Advance]
    } else if c == '|' {
        seq![Command::Draw(depth)]
    } else if c == '-' {
        seq![Command::TurnFirst]
    } else if c == '+' {
        seq![Command::TurnSecond]
    } else if c == '[' {
        seq![Command::Push]
    } else if c == ']' {
        seq![Command::Pop]
    } else if m.rules.contains_key(c) && depth > 0 {
        expand(m, m.rules[c], (depth - 1) as u32)
    } else if m.terminals {
        seq![Command::Draw(depth)]
    } else {
        seq![]
    }
}

/// Symbols that are turtle instructions of their own and are never rewritten.
pub open spec fn is_command_symbol(c: char) -> bool {
    c == '.' || c == '|' || c == '-' || c == '+' || c == '[' || c == ']'
}

/// One parallel rewriting step applied to a single symbol.
pub open spec fn rewrite_symbol(m: LSystemModel, c: char) -> Seq<char> {
    if !is_command_symbol(c) && m.rules.contains_key(c) {
        m.rules[c]
    } else {
        seq![c]
    }
}

/// One parallel rewriting step: every symbol with a production is replaced by it.
pub open spec fn rewrite(m: LSystemModel, word: Seq<char>) -> Seq<char>
    decreases word.len(),
{
    if word.len() == 0 {
        seq![]
    } else {
        rewrite(m, word.drop_last()) + rewrite_symbol(m, word.last())
    }
}

/// The word obtained after `n` rewriting steps.
pub open spec fn derive(m: LSystemModel, word: Seq<char>, n: nat) -> Seq<char>
    decreases n,
{
    if n == 0 {
        word
    } else {
        derive(m, rewrite(m, word), (n - 1) as nat)
    }
}

/// A command with its depth label cleared.
pub open spec fn unlabel(c: Command) -> Command {
    match c {
        Command::Draw(_) => Command::Draw(0),
        other => other,
    }
}

/// The instructions with all depth labels cleared: what the turtle draws.
pub open spec fn shape(commands: Seq<Command>) -> Seq<Command> {
    commands.map_values(|c: Command| unlabel(c))
}

/// Positions of the `Push` instructions whose state is still saved after
/// running `commands` from the start; a `Pop` with nothing saved does nothing.
pub open spec fn open_saves(commands: Seq<Command>) -> Seq<usize>
    decreases commands.len(),
{
    if commands.len() == 0 {
        seq![]
    } else {
        let saved = open_saves(commands.drop_last());
        match commands.last() {
            Command::Push => saved.push((commands.len() - 1) as usize),
            Command::Pop => if saved.len() > 0 {
                saved.drop_last()
            } else {
                saved
            },
            _ => saved,
        }
    }
}

/// The position of the `Push` whose saved state the instruction at `i` restores.
pub open spec fn restore_point(commands: Seq<Command>, i: int) -> Option<usize> {
    let saved = open_saves(commands.take(i));
    if commands[i] == Command::Pop && saved.len() > 0 {
        Some(saved.last())
    } else {
        None
    }
}

/// The rule table after inserting `pairs` in order into `rules`; a later pair
/// for the same symbol replaces an earlier one.
pub open spec fn with_rules(rules: Map<char, Seq<char>>, pairs: Seq<(char, String)>) -> Map<
    char,
    Seq<char>,
>
    decreases pairs.len(),
{
    if pairs.len() == 0 {
        rules
    } else {
        with_rules(rules, pairs.drop_last()).insert(pairs.last().0, pairs.last().1@)
    }
}

/// An L-system: a start word, rewriting rules for single symbols, and whether
/// symbols without a rule are drawn as segments.
pub struct LSystem {
    initiator: String,
    rules: HashMap<u32, String>,
    terminals: bool,
}

impl View for LSystem {
    type V = LSystemModel;

    closed spec fn view(&self) -> LSystemModel {
        LSystemModel {
            initiator: self.initiator@,
            rules: Map::new(
                |c: char| self.rules@.contains_key(c as u32),
                |c: char| self.rules@[c as u32]@,
            ),
            terminals: self.terminals,
        }
    }
}

impl Default for LSystem {
    fn default() -> (r: LSystem)
        ensures
            r@.initiator == Seq::<char>::empty(),
            r@.rules == Map::<char, Seq<char>>::empty(),
            !r@.terminals,
    {
        LSystem::new()
    }
}

impl LSystem {
    /// An L-system with an empty start word, no rules and no terminal drawing.
    pub fn new() -> (r: LSystem)
        ensures
            r@.initiator == Seq::<char>::empty(),
            r@.rules == Map::<char, Seq<char>>::empty(),
            !r@.terminals,
    {
        let r = LSystem { initiator: String::new(), rules: HashMap::new(), terminals: false };
        proof {
            assert(r@.rules =~= Map::<char, Seq<char>>::empty());
        }
        r
    }

    /// Replaces the start word.
    pub fn initiator(self, initiator: &str) -> (r: LSystem)
        ensures
            r@.initiator == initiator@,
            r@.rules == self@.rules,
            r@.terminals == self@.terminals,
    {
        let ghost old_rules = self@.rules;
        let r = LSystem { initiator: initiator.to_owned(), rules: self.rules, terminals: self.terminals };
        proof {
            assert(r@.rules =~= old_rules);
        }
        r
    }

    /// Sets the production of symbol `id`, replacing any earlier one.
    pub fn rule(self, id: char, rule: &str) -> (r: LSystem)
        ensures
            r@.initiator == self@.initiator,
            r@.rules == self@.rules.insert(id, rule@),
            r@.terminals == self@.terminals,
    {
        let ghost old_model = self@;
        let mut s = self;
        s.rules.insert(id as u32, rule.to_owned());
        proof {
            assert forall|c: char|
                #[trigger] s@.rules.contains_key(c) == old_model.rules.insert(id, rule@).contains_key(c)
                && (s@.rules.contains_key(c) ==> s@.rules[c] == old_model.rules.insert(id, rule@)[c]) by {
                if c as u32 == id as u32 {
                    vstd::utf8::char_u32_cast(c, c as u32);
                    vstd::utf8::char_u32_cast(id, id as u32);
                }
            }
            assert(s@.rules =~= old_model.rules.insert(id, rule@));
        }
        s
    }

    /// Sets the productions of `rules` in order, as repeated calls of `rule` would.
    pub fn rules(self, rules: &Vec<(char, String)>) -> (r: LSystem)
        ensures
            r@.initiator == self@.initiator,
            r@.rules == with_rules(self@.rules, rules@),
            r@.terminals == self@.terminals,
    {
        let ghost old_model = self@;
        let mut s = self;
        for i in 0..rules.len()
            invariant
                s@.initiator == old_model.initiator,
                s@.terminals == old_model.terminals,
                s@.rules == with_rules(old_model.rules, rules@.take(i as int)),
        {
            proof {
                assert(rules@.take(i + 1).drop_last() =~= rules@.take(i as int));
            }
            let (id, production) = &rules[i];
            s = s.rule(*id, production.as_str());
        }
        proof {
            assert(rules@.take(rules@.len() as int) =~= rules@);
        }
        s
    }

    /// Chooses whether symbols without a production are drawn as segments.
    pub fn terminals(self, terminals: bool) -> (r: LSystem)
        ensures
            r@.initiator == self@.initiator,
            r@.rules == self@.rules,
            r@.terminals == terminals,
    {
        let ghost old_rules = self@.rules;
        let r = LSystem { initiator: self.initiator, rules: self.rules, terminals };
        proof {
            assert(r@.rules =~= old_rules);
        }
        r
    }

    /// The turtle instructions that drawing the start word at `depth` performs.
    pub fn generate(&self, depth: u32) -> (commands: Vec<Command>)
        ensures
            commands@ == expand(self@, self@.initiator, depth),
    {
        let mut commands = Vec::new();
        self.expand_into(self.initiator.as_str(), depth, &mut commands);
        proof {
            assert(commands@ =~= Seq::<Command>::empty() + expand(self@, self@.initiator, depth));
        }
        commands
    }

    fn expand_into(&self, word: &str, depth: u32, out: &mut Vec<Command>)
        ensures
            final(out)@ == old(out)@ + expand(self@, word@, depth),
        decreases depth,
    {
        let ghost start = out@;
        for c in it: word.chars()
            invariant
                out@ == start + expand(self@, it.seq().take(it.index()), depth),
                it.seq() == word@,
        {
            let ghost before = out@;
            let ghost i = it.index();
            proof {
                assert(word@.take(i + 1).drop_last() =~= word@.take(i));
            }
            if c == '.' {
                out.push(Command::Advance);
            } else if c == '|' {
                out.push(Command::Draw(depth));
            } else if c == '-' {
                out.push(Command::TurnFirst);
            } else if c == '+' {
                out.push(Command::TurnSecond);
            } else if c == '[' {
                out.push(Command::Push);
            } else if c == ']' {
                out.push(Command::Pop);
            } else {
                match self.rules.get(&(c as u32)) {
                    Some(rule) if depth > 0 => {
                        self.expand_into(rule.as_str(), depth - 1, out);
                    },
                    _ => {
                        if self.terminals {
                            out.push(Command::Draw(depth));
                        }
                    },
                }
            }
            assert(out@ == before + expand_symbol(self@, c, depth));
        }
        proof {
            assert(word@.take(word@.len() as int) =~= word@);
        }
    }
}

proof fn lemma_open_saves_are_pushes(commands: Seq<Command>)
    requires
        commands.len() <= usize::MAX,
    ensures
        forall|k: int|
            0 <= k < open_saves(commands).len() ==> {
                let j = #[trigger] open_saves(commands)[k];
                &&& j < commands.len()
                &&& commands[j as int] == Command::Push
            },
    decreases commands.len(),
{
    if commands.len() > 0 {
        let init = commands.drop_last();
        lemma_open_saves_are_pushes(init);
        assert forall|k: int| 0 <= k < open_saves(commands).len() implies {
            let j = #[trigger] open_saves(commands)[k];
            &&& j < commands.len()
            &&& commands[j as int] == Command::Push
        } by {
            let j = open_saves(commands)[k];
            if commands.last() == Command::Push && k == open_saves(init).len() {
                assert(j == commands.len() - 1);
            } else {
                assert(open_saves(init)[k] == j);
                assert(init[j as int] == commands[j as int]);
            }
        }
    }
}

/// For each instruction, the position of the `Push` whose state it restores:
/// the latest still-open save for a `Pop`, and nothing otherwise.
pub fn restore_points(commands: &Vec<Command>) -> (points: Vec<Option<usize>>)
    ensures
        points.len() == commands.len(),
        forall|i: int| 0 <= i < commands.len() ==> #[trigger] points@[i] == restore_point(commands@, i),
        forall|i: int, j: usize|
            0 <= i < commands.len() && points@[i] == Some(j) ==> j < i && commands@[j as int]
                == Command::Push,
        forall|i: int| 0 <= i < commands.len() && #[trigger] points@[i] is Some ==> commands@[i] == Command::Pop,
{
    let mut points: Vec<Option<usize>> = Vec::new();
    let mut saved: Vec<usize> = Vec::new();
    for i in 0..commands.len()
        invariant
            points.len() == i,
            saved@ == open_saves(commands@.take(i as int)),
            forall|k: int| 0 <= k < i ==> #[trigger] points@[k] == restore_point(commands@, k),
    {
        proof {
            assert(commands@.take(i + 1).drop_last() =~= commands@.take(i as int));
            assert(commands@.take(i + 1).last() == commands@[i as int]);
        }
        match commands[i] {
            Command::Push => {
                points.push(None);
                saved.push(i);
            },
            Command::Pop => {
                let top = saved.pop();
                points.push(top);
            },
            _ => {
                points.push(None);
            },
        }
    }
    proof {
        assert forall|i: int, j: usize|
            0 <= i < commands.len() && points@[i] == Some(j) implies j < i && commands@[j as int]
                == Command::Push by {
            let prefix = commands@.take(i);
            lemma_open_saves_are_pushes(prefix);
            let k = open_saves(prefix).len() - 1;
            assert(open_saves(prefix)[k] == j);
            assert(prefix[j as int] == commands@[j as int]);
        }
    }
    points
}

/// How an instruction changes the number of saved states: `Push` adds one,
/// `Pop` takes one, the others leave it.
pub open spec fn command_nesting(c: Command) -> int {
    match c {
        Command::Push => 1,
        Command::Pop => -1,
        _ => 0,
    }
}

/// How a symbol changes the bracket nesting: `[` opens, `]` closes.
pub open spec fn symbol_nesting(c: char) -> int {
    if c == '[' {
        1
    } else if c == ']' {
        -1
    } else {
        0
    }
}

/// The nesting changes of a run of instructions.
pub open spec fn nesting(commands: Seq<Command>) -> Seq<int> {
    commands.map_values(|c: Command| command_nesting(c))
}

/// The nesting changes of a word.
pub open spec fn word_nesting(word: Seq<char>) -> Seq<int> {
    word.map_values(|c: char| symbol_nesting(c))
}

/// The sum of the changes.
pub open spec fn total(s: Seq<int>) -> int
    decreases s.len(),
{
    if s.len() == 0 {
        0
    } else {
        total(s.drop_last()) + s.last()
    }
}

/// No prefix of the changes sums below zero: nothing closes more than was opened.
pub open spec fn never_negative(s: Seq<int>) -> bool
    decreases s.len(),
{
    s.len() == 0 || (never_negative(s.drop_last()) && total(s) >= 0)
}

/// Every prefix stays at or above zero and the whole sums to zero: every
/// opening is closed, and nothing else is.
pub open spec fn balanced(s: Seq<int>) -> bool {
    never_negative(s) && total(s) == 0
}

proof fn lemma_total_concat(a: Seq<int>, b: Seq<int>)
    ensures
        total(a + b) == total(a) + total(b),
    decreases b.len(),
{
    if b.len() == 0 {
        assert(a + b =~= a);
    } else {
        assert((a + b).drop_last() =~= a + b.drop_last());
        lemma_total_concat(a, b.drop_last());
    }
}

proof fn lemma_never_negative_total(a: Seq<int>)
    requires
        never_negative(a),
    ensures
        total(a) >= 0,
{
}

proof fn lemma_never_negative_concat(a: Seq<int>, b: Seq<int>)
    requires
        never_negative(a),
        never_negative(b),
    ensures
        never_negative(a + b),
    decreases b.len(),
{
    if b.len() == 0 {
        assert(a + b =~= a);
    } else {
        assert((a + b).drop_last() =~= a + b.drop_last());
        lemma_never_negative_concat(a, b.drop_last());
        lemma_total_concat(a, b);
        lemma_never_negative_total(a);
    }
}

proof fn lemma_nesting_concat(a: Seq<Command>, b: Seq<Command>)
    ensures
        nesting(a + b) == nesting(a) + nesting(b),
{
    assert(nesting(a + b) =~= nesting(a) + nesting(b));
}

/// When the start word and every production are balanced, expanding the word
/// keeps its nesting: the instructions never restore more than they saved,
/// and save and restore as often as the word opens and closes brackets.
pub proof fn lemma_expand_nesting(m: LSystemModel, word: Seq<char>, depth: u32)
    requires
        forall|c: char| #[trigger] m.rules.contains_key(c) ==> balanced(word_nesting(m.rules[c])),
    ensures
        total(nesting(expand(m, word, depth))) == total(word_nesting(word)),
        never_negative(word_nesting(word)) ==> never_negative(nesting(expand(m, word, depth))),
    decreases depth, word.len(),
{
    if word.len() > 0 {
        let init = word.drop_last();
        let c = word.last();
        let head = expand(m, init, depth);
        let tail = expand_symbol(m, c, depth);
        lemma_expand_nesting(m, init, depth);
        assert(word_nesting(word).drop_last() =~= word_nesting(init));
        lemma_nesting_concat(head, tail);
        assert(word_nesting(word).last() == symbol_nesting(c));
        assert(total(Seq::<int>::empty()) == 0);
        if !is_command_symbol(c) && m.rules.contains_key(c) && depth > 0 {
            lemma_expand_nesting(m, m.rules[c], (depth - 1) as u32);
            assert(total(nesting(tail)) == symbol_nesting(c));
        } else {
            assert(nesting(tail) =~= if tail.len() == 0 {
                Seq::<int>::empty()
            } else {
                seq![symbol_nesting(c)]
            });
            if tail.len() > 0 {
                assert(nesting(tail).drop_last() =~= Seq::<int>::empty());
            }
            assert(total(nesting(tail)) == symbol_nesting(c));
        }
        lemma_total_concat(nesting(head), nesting(tail));
        if never_negative(word_nesting(word)) {
            if nesting(tail).len() == 1 {
                assert(never_negative(nesting(tail).drop_last()));
                lemma_total_concat(nesting(head), nesting(tail));
                assert((nesting(head) + nesting(tail)).drop_last() =~= nesting(head));
            } else if nesting(tail).len() == 0 {
                assert(nesting(head) + nesting(tail) =~= nesting(head));
            } else {
                lemma_never_negative_concat(nesting(head), nesting(tail));
            }
        }
    }
}

proof fn lemma_open_saves_concat(p: Seq<Command>, b: Seq<Command>)
    requires
        never_negative(nesting(b)),
        p.len() + b.len() <= usize::MAX,
    ensures
        open_saves(p + b).len() == open_saves(p).len() + total(nesting(b)),
        open_saves(p + b).take(open_saves(p).len() as int) == open_saves(p),
    decreases b.len(),
{
    if b.len() == 0 {
        assert(p + b =~= p);
        assert(open_saves(p).take(open_saves(p).len() as int) =~= open_saves(p));
    } else {
        let init = b.drop_last();
        assert((p + b).drop_last() =~= p + init);
        assert(nesting(b).drop_last() =~= nesting(init));
        lemma_open_saves_concat(p, init);
        let before = open_saves(p + init);
        let k = open_saves(p).len() as int;
        assert((p + b).last() == b.last());
        assert(nesting(b).last() == command_nesting(b.last()));
        lemma_never_negative_total(nesting(b));
        lemma_never_negative_total(nesting(init));
        assert(before.len() >= k);
        match b.last() {
            Command::Push => {
                assert(open_saves(p + b) == before.push(((p + b).len() - 1) as usize));
                assert(before.push(((p + b).len() - 1) as usize).take(k) =~= before.take(k));
            },
            Command::Pop => {
                assert(before.len() > k);
                assert(open_saves(p + b) == before.drop_last());
                assert(before.drop_last().take(k) =~= before.take(k));
            },
            _ => {
                assert(open_saves(p + b) == before);
            },
        }
    }
}

/// A bracketed group whose inside is balanced leaves the saved states as it
/// found them, and its closing `Pop` restores the state saved by its opening
/// `Push`: after the group the turtle is where it was before it.
pub proof fn lemma_group_restores(before: Seq<Command>, inside: Seq<Command>)
    requires
        balanced(nesting(inside)),
        before.len() + inside.len() + 2 <= usize::MAX,
    ensures
        ({
            let run = before + seq![Command::Push] + inside + seq![Command::Pop];
            &&& open_saves(run) == open_saves(before)
            &&& restore_point(run, run.len() - 1) == Some(before.len() as usize)
        }),
{
    let opened = before + seq![Command::Push];
    let run = opened + inside + seq![Command::Pop];
    assert(opened.drop_last() =~= before);
    lemma_open_saves_concat(opened, inside);
    let saves = open_saves(opened + inside);
    assert(saves =~= open_saves(opened));
    assert(run.drop_last() =~= opened + inside);
    assert(run.take(run.len() - 1) =~= opened + inside);
    assert(open_saves(run) =~= open_saves(before));
}

/// Expanding a bracketed balanced word gives a `Push`, the expansion of the
/// word, and a `Pop`; so, wherever it is drawn, the group restores the state
/// it started from and leaves the saved states unchanged.
pub proof fn lemma_bracketed_word_restores(
    m: LSystemModel,
    before: Seq<Command>,
    word: Seq<char>,
    depth: u32,
)
    requires
        forall|c: char| #[trigger] m.rules.contains_key(c) ==> balanced(word_nesting(m.rules[c])),
        balanced(word_nesting(word)),
        before.len() + expand(m, seq!['['] + word + seq![']'], depth).len() <= usize::MAX,
    ensures
        expand(m, seq!['['] + word + seq![']'], depth) == seq![Command::Push] + expand(m, word, depth)
            + seq![Command::Pop],
        ({
            let run = before + expand(m, seq!['['] + word + seq![']'], depth);
            &&& open_saves(run) == open_saves(before)
            &&& restore_point(run, run.len() - 1) == Some(before.len() as usize)
        }),
{
    let open = seq!['['];
    let close = seq![']'];
    lemma_expand_concat(m, open + word, close, depth);
    lemma_expand_concat(m, open, word, depth);
    lemma_expand_single(m, '[', depth);
    lemma_expand_single(m, ']', depth);
    lemma_expand_nesting(m, word, depth);
    let inside = expand(m, word, depth);
    assert(before + (seq![Command::Push] + inside + seq![Command::Pop]) =~= before + seq![
        Command::Push,
    ] + inside + seq![Command::Pop]);
    lemma_group_restores(before, inside);
}

/// Every segment drawn by an expansion at `depth` is labelled with a depth
/// no greater than `depth`: the depth left when it was drawn.
pub proof fn lemma_draw_depths(m: LSystemModel, word: Seq<char>, depth: u32)
    ensures
        forall|i: int|
            0 <= i < expand(m, word, depth).len() ==> (#[trigger] expand(m, word, depth)[i] matches Command::Draw(k) ==> k <= depth),
    decreases depth, word.len(),
{
    if word.len() > 0 {
        let init = word.drop_last();
        let c = word.last();
        lemma_draw_depths(m, init, depth);
        if !is_command_symbol(c) && m.rules.contains_key(c) && depth > 0 {
            lemma_draw_depths(m, m.rules[c], (depth - 1) as u32);
        }
        let head = expand(m, init, depth);
        let tail = expand_symbol(m, c, depth);
        assert forall|i: int|
            0 <= i < expand(m, word, depth).len() implies (#[trigger] expand(m, word, depth)[i] matches Command::Draw(k) ==> k <= depth) by {
            if i < head.len() {
                assert(expand(m, word, depth)[i] == head[i]);
            } else {
                assert(expand(m, word, depth)[i] == tail[i - head.len()]);
            }
        }
    }
}

/// Expanding a one-symbol word expands the symbol.
pub proof fn lemma_expand_single(m: LSystemModel, c: char, depth: u32)
    ensures
        expand(m, seq![c], depth) == expand_symbol(m, c, depth),
{
    assert(seq![c].drop_last() =~= Seq::<char>::empty());
    assert(expand(m, Seq::<char>::empty(), depth) =~= Seq::<Command>::empty());
    assert(expand(m, seq![c], depth) =~= expand_symbol(m, c, depth));
}

/// Each instruction symbol stands for its one instruction, at every depth,
/// whatever the rules say and whether or not terminals are drawn: `.` moves
/// without drawing, `|` draws a segment labelled with the depth, `-` and `+`
/// turn, `[` saves and `]` restores.
pub proof fn lemma_instruction_symbols(m: LSystemModel, depth: u32)
    ensures
        expand(m, seq!['.'], depth) == seq![Command::Advance],
        expand(m, seq!['|'], depth) == seq![Command::Draw(depth)],
        expand(m, seq!['-'], depth) == seq![Command::TurnFirst],
        expand(m, seq!['+'], depth) == seq![Command::TurnSecond],
        expand(m, seq!['['], depth) == seq![Command::Push],
        expand(m, seq![']'], depth) == seq![Command::Pop],
{
    lemma_expand_single(m, '.', depth);
    lemma_expand_single(m, '|', depth);
    lemma_expand_single(m, '-', depth);
    lemma_expand_single(m, '+', depth);
    lemma_expand_single(m, '[', depth);
    lemma_expand_single(m, ']', depth);
}

/// A symbol that is not an instruction and is not rewritten (it has no
/// production, or the depth is used up) draws one segment if terminals are
/// drawn, and nothing otherwise.
pub proof fn lemma_unrewritten_symbol(m: LSystemModel, c: char, depth: u32)
    requires
        !is_command_symbol(c),
        !m.rules.contains_key(c) || depth == 0,
    ensures
        expand(m, seq![c], depth) == if m.terminals {
            seq![Command::Draw(depth)]
        } else {
            Seq::<Command>::empty()
        },
{
    lemma_expand_single(m, c, depth);
}

/// A symbol with a production, above depth zero, draws what its production
/// draws one level less deep.
pub proof fn lemma_rewritten_symbol(m: LSystemModel, c: char, depth: u32)
    requires
        !is_command_symbol(c),
        m.rules.contains_key(c),
        depth > 0,
    ensures
        expand(m, seq![c], depth) == expand(m, m.rules[c], (depth - 1) as u32),
{
    lemma_expand_single(m, c, depth);
}

/// Setting one more rule after a list installs it, whatever its production,
/// the empty one included.
pub proof fn lemma_with_rules_push(
    rules: Map<char, Seq<char>>,
    pairs: Seq<(char, String)>,
    id: char,
    production: String,
)
    ensures
        with_rules(rules, pairs.push((id, production))) == with_rules(rules, pairs).insert(
            id,
            production@,
        ),
{
    assert(pairs.push((id, production)).drop_last() =~= pairs);
}

/// After setting a list of rules, a symbol named in the list maps to the
/// production of its last pair; a symbol the list does not name keeps what it
/// had.
pub proof fn lemma_with_rules_lookup(rules: Map<char, Seq<char>>, pairs: Seq<(char, String)>, id: char)
    ensures
        forall|i: int|
            0 <= i < pairs.len() && pairs[i].0 == id && (forall|j: int|
                i < j < pairs.len() ==> pairs[j].0 != id) ==> {
                &&& with_rules(rules, pairs).contains_key(id)
                &&& with_rules(rules, pairs)[id] == (#[trigger] pairs[i]).1@
            },
        (forall|i: int| 0 <= i < pairs.len() ==> (#[trigger] pairs[i]).0 != id) ==> {
            &&& with_rules(rules, pairs).contains_key(id) == rules.contains_key(id)
            &&& rules.contains_key(id) ==> with_rules(rules, pairs)[id] == rules[id]
        },
    decreases pairs.len(),
{
    if pairs.len() > 0 {
        let init = pairs.drop_last();
        lemma_with_rules_lookup(rules, init, id);
        assert forall|i: int|
            0 <= i < pairs.len() && pairs[i].0 == id && (forall|j: int|
                i < j < pairs.len() ==> pairs[j].0 != id) implies {
            &&& with_rules(rules, pairs).contains_key(id)
            &&& with_rules(rules, pairs)[id] == (#[trigger] pairs[i]).1@
        } by {
            if i < pairs.len() - 1 {
                assert(pairs[pairs.len() - 1].0 != id);
                assert(init[i] == pairs[i]);
                assert forall|j: int| i < j < init.len() implies init[j].0 != id by {
                    assert(init[j] == pairs[j]);
                }
            }
        }
        if forall|i: int| 0 <= i < pairs.len() ==> (#[trigger] pairs[i]).0 != id {
            assert forall|i: int| 0 <= i < init.len() implies (#[trigger] init[i]).0 != id by {
                assert(init[i] == pairs[i]);
            }
            assert(pairs[pairs.len() - 1].0 != id);
        }
    }
}

/// Only a `Pop` restores a saved state, and what it restores was saved
/// earlier by a `Push`.
pub proof fn lemma_only_pops_restore(commands: Seq<Command>, i: int)
    requires
        0 <= i < commands.len(),
        commands.len() <= usize::MAX,
    ensures
        restore_point(commands, i) is Some ==> {
            &&& commands[i] == Command::Pop
            &&& restore_point(commands, i)->0 < i
            &&& commands[restore_point(commands, i)->0 as int] == Command::Push
        },
{
    let prefix = commands.take(i);
    if restore_point(commands, i) is Some {
        lemma_open_saves_are_pushes(prefix);
        let k = open_saves(prefix).len() - 1;
        let j = open_saves(prefix)[k];
        assert(prefix[j as int] == commands[j as int]);
    }
}

/// A `Pop` restores a state exactly when some saved state is still open; the
/// others restore nothing.
pub proof fn lemma_pop_restores_when_open(commands: Seq<Command>, i: int)
    requires
        0 <= i < commands.len(),
    ensures
        (restore_point(commands, i) is Some) == (commands[i] == Command::Pop && open_saves(
            commands.take(i),
        ).len() > 0),
{
}

/// Expanding a concatenation expands each part in turn.
pub proof fn lemma_expand_concat(m: LSystemModel, a: Seq<char>, b: Seq<char>, depth: u32)
    ensures
        expand(m, a + b, depth) == expand(m, a, depth) + expand(m, b, depth),
    decreases b.len(),
{
    if b.len() == 0 {
        assert(a + b =~= a);
        assert(expand(m, a, depth) + expand(m, b, depth) =~= expand(m, a, depth));
    } else {
        assert((a + b).drop_last() =~= a + b.drop_last());
        assert((a + b).last() == b.last());
        lemma_expand_concat(m, a, b.drop_last(), depth);
        assert(expand(m, a + b, depth) =~= expand(m, a, depth) + expand(m, b, depth));
    }
}

proof fn lemma_shape_concat(x: Seq<Command>, y: Seq<Command>)
    ensures
        shape(x + y) == shape(x) + shape(y),
{
    assert(shape(x + y) =~= shape(x) + shape(y));
}

proof fn lemma_rewrite_symbol_step(m: LSystemModel, c: char, depth: u32)
    requires
        depth < u32::MAX,
    ensures
        shape(expand_symbol(m, c, (depth + 1) as u32)) == shape(expand(m, rewrite_symbol(m, c), depth)),
{
    let w = rewrite_symbol(m, c);
    if is_command_symbol(c) || !m.rules.contains_key(c) {
        assert(w.drop_last() =~= Seq::<char>::empty());
        assert(w.last() == c);
        assert(expand(m, w.drop_last(), depth) =~= Seq::<Command>::empty());
        assert(expand(m, w, depth) =~= expand_symbol(m, c, depth));
        assert(shape(expand_symbol(m, c, (depth + 1) as u32)) =~= shape(expand_symbol(m, c, depth)));
    }
}

/// Expanding a word one level deeper draws the same shape as expanding, one
/// level less deep, the word after one rewriting step.
pub proof fn lemma_expand_rewrites(m: LSystemModel, word: Seq<char>, depth: u32)
    requires
        depth < u32::MAX,
    ensures
        shape(expand(m, word, (depth + 1) as u32)) == shape(expand(m, rewrite(m, word), depth)),
    decreases word.len(),
{
    if word.len() == 0 {
        assert(shape(expand(m, word, (depth + 1) as u32)) =~= shape(expand(m, rewrite(m, word), depth)));
    } else {
        let init = word.drop_last();
        let c = word.last();
        lemma_expand_rewrites(m, init, depth);
        lemma_rewrite_symbol_step(m, c, depth);
        lemma_expand_concat(m, rewrite(m, init), rewrite_symbol(m, c), depth);
        lemma_shape_concat(expand(m, init, (depth + 1) as u32), expand_symbol(m, c, (depth + 1) as u32));
        lemma_shape_concat(expand(m, rewrite(m, init), depth), expand(m, rewrite_symbol(m, c), depth));
    }
}

/// Expanding a word at depth `n` draws the shape of its `n`-th derived word
/// read literally, without any rewriting.
pub proof fn lemma_expand_is_derivation(m: LSystemModel, word: Seq<char>, n: u32)
    ensures
        shape(expand(m, word, n)) == shape(expand(m, derive(m, word, n as nat), 0)),
    decreases n,
{
    if n > 0 {
        lemma_expand_rewrites(m, word, (n - 1) as u32);
        lemma_expand_is_derivation(m, rewrite(m, word), (n - 1) as u32);
    }
}

} // verus!
