use memfrob::lsystem::{restore_points, Command, LSystem};
use memfrob::pieces::koch_curve;

use Command::{Advance, Draw, Pop, Push, TurnFirst, TurnSecond};

fn count_draws(commands: &[Command]) -> usize {
    commands.iter().filter(|c| matches!(c, Draw(_))).count()
}

fn unlabel(commands: &[Command]) -> Vec<Command> {
    commands
        .iter()
        .map(|c| match c {
            Draw(_) => Draw(0),
            other => *other,
        })
        .collect()
}

#[test]
fn koch_depth_one_is_the_production_read_literally() {
    let koch = koch_curve();
    assert_eq!(
        koch.generate(1),
        vec![Draw(0), TurnSecond, Draw(0), TurnFirst, TurnFirst, Draw(0), TurnSecond, Draw(0)]
    );
}

#[test]
fn koch_segment_count_quadruples_per_level() {
    let koch = koch_curve();
    assert_eq!(count_draws(&koch.generate(0)), 1);
    assert_eq!(count_draws(&koch.generate(1)), 4);
    assert_eq!(count_draws(&koch.generate(2)), 16);
    assert_eq!(count_draws(&koch.generate(4)), 256);
}

#[test]
fn deeper_expansion_is_expansion_of_rewritten_word() {
    let koch = koch_curve();
    let rewritten = koch_curve().initiator("F+F--F+F");
    assert_eq!(unlabel(&koch.generate(3)), unlabel(&rewritten.generate(2)));
    let system = LSystem::new().initiator("|A").rule('A', "|A");
    let once = LSystem::new().initiator("||A").rule('A', "|A");
    assert_eq!(system.generate(2), vec![Draw(2), Draw(1), Draw(0)]);
    assert_eq!(once.generate(1), vec![Draw(1), Draw(1), Draw(0)]);
    assert_eq!(unlabel(&system.generate(2)), unlabel(&once.generate(1)));
}

#[test]
fn command_symbols_are_never_rewritten() {
    let system = LSystem::new()
        .initiator(".|-+[]")
        .rule('.', "X")
        .rule('|', "X")
        .rule('[', "X")
        .terminals(true);
    assert_eq!(system.generate(3), vec![Advance, Draw(3), TurnFirst, TurnSecond, Push, Pop]);
}

#[test]
fn symbols_without_rules_draw_only_as_terminals() {
    let quiet = LSystem::new().initiator("AB").rule('A', "|B");
    assert_eq!(quiet.generate(2), vec![Draw(1)]);
    let loud = LSystem::new().initiator("AB").rule('A', "|B").terminals(true);
    assert_eq!(loud.generate(2), vec![Draw(1), Draw(1), Draw(2)]);
}

#[test]
fn rules_stop_at_depth_zero() {
    let system = LSystem::new().initiator("A").rule('A', "AA").terminals(true);
    assert_eq!(system.generate(0), vec![Draw(0)]);
    assert_eq!(system.generate(2), vec![Draw(0); 4]);
}

#[test]
fn later_rule_replaces_earlier() {
    let system = LSystem::new().initiator("A").rule('A', "--").rule('A', "+");
    assert_eq!(system.generate(1), vec![TurnSecond]);
    let listed = LSystem::new()
        .initiator("AB")
        .rules(&vec![('A', String::from(".")), ('B', String::from("|")), ('A', String::from("-"))]);
    assert_eq!(listed.generate(1), vec![TurnFirst, Draw(0)]);
}

#[test]
fn empty_system_draws_nothing() {
    assert_eq!(LSystem::new().generate(5), vec![]);
    assert_eq!(LSystem::default().generate(0), vec![]);
}

#[test]
fn pops_restore_latest_open_push() {
    let commands = vec![Push, Draw(0), Push, Pop, Advance, Pop, Pop, Push, Pop];
    assert_eq!(
        restore_points(&commands),
        vec![None, None, None, Some(2), None, Some(0), None, None, Some(7)]
    );
}

#[test]
fn restore_points_of_branching_system() {
    let system = LSystem::new().initiator("A").rule('A', "|[-A]A").terminals(true);
    let commands = system.generate(1);
    assert_eq!(commands, vec![Draw(0), Push, TurnFirst, Draw(0), Pop, Draw(0)]);
    assert_eq!(restore_points(&commands), vec![None, None, None, None, Some(1), None]);
}

#[test]
fn expansion_of_concatenation_is_concatenation_of_expansions() {
    let rules = |start: &str| {
        LSystem::new()
            .initiator(start)
            .rule('A', "|[+A]-B")
            .rule('B', "A.B")
            .terminals(true)
    };
    let mut joined = rules("A").generate(3);
    joined.extend(rules("B-").generate(3));
    assert_eq!(rules("AB-").generate(3), joined);
}

#[test]
fn expansion_reads_the_derived_word_literally() {
    let koch = koch_curve();
    let derived_twice = LSystem::new()
        .initiator("F+F--F+F+F+F--F+F--F+F--F+F+F+F--F+F")
        .terminals(true);
    assert_eq!(unlabel(&koch.generate(2)), unlabel(&derived_twice.generate(0)));
}

#[test]
fn balanced_group_restores_its_opening_push() {
    let system = LSystem::new()
        .initiator("|[A]|")
        .rule('A', "+|[-|]|")
        .terminals(true);
    let commands = system.generate(1);
    assert_eq!(
        commands,
        vec![Draw(1), Push, TurnSecond, Draw(0), Push, TurnFirst, Draw(0), Pop, Draw(0), Pop, Draw(1)]
    );
    let points = restore_points(&commands);
    assert_eq!(points[7], Some(4));
    assert_eq!(points[9], Some(1));
}
