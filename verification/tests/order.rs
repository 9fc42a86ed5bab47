use bfvm::inst::{Inst, Kind};
use bfvm::order::sort_by_position;

fn at(idx: usize, kind: Kind) -> Inst {
    Inst { idx, kind }
}

fn positions(program: &[Inst]) -> Vec<usize> {
    program.iter().map(|inst| inst.idx).collect()
}

#[test]
fn sorting_nothing_gives_nothing() {
    assert_eq!(sort_by_position(vec![]), vec![]);
}

#[test]
fn sorting_one_instruction_gives_it_back() {
    let only = at(3, Kind::Output);
    assert_eq!(sort_by_position(vec![only]), vec![only]);
}

#[test]
fn sorting_puts_positions_in_ascending_order() {
    let mixed = vec![
        at(5, Kind::Increment),
        at(1, Kind::MoveLeft),
        at(4, Kind::Input),
        at(0, Kind::MoveRight),
        at(3, Kind::Output),
        at(2, Kind::Decrement),
    ];
    let sorted = sort_by_position(mixed);
    assert_eq!(positions(&sorted), vec![0, 1, 2, 3, 4, 5]);
    assert_eq!(sorted[0].kind, Kind::MoveRight);
    assert_eq!(sorted[2].kind, Kind::Decrement);
    assert_eq!(sorted[5].kind, Kind::Increment);
}

#[test]
fn sorting_a_descending_run_reverses_it() {
    let descending: Vec<Inst> = (0..1000).rev().map(|idx| at(idx, Kind::Increment)).collect();
    let sorted = sort_by_position(descending);
    assert_eq!(positions(&sorted), (0..1000).collect::<Vec<usize>>());
}

#[test]
fn sorting_keeps_every_instruction() {
    let mixed = vec![
        at(9, Kind::LoopEnd { target: 1 }),
        at(2, Kind::LoopStart { target: 10 }),
        at(9, Kind::LoopEnd { target: 1 }),
        at(7, Kind::Output),
    ];
    let sorted = sort_by_position(mixed.clone());
    assert_eq!(sorted.len(), 4);
    for inst in &mixed {
        let before = mixed.iter().filter(|other| *other == inst).count();
        let after = sorted.iter().filter(|other| *other == inst).count();
        assert_eq!(before, after);
    }
}

#[test]
fn sorting_is_stable() {
    let mixed = vec![
        at(1, Kind::Increment),
        at(0, Kind::MoveRight),
        at(1, Kind::Decrement),
        at(0, Kind::MoveLeft),
        at(1, Kind::Output),
        at(0, Kind::Input),
        at(1, Kind::LoopStart { target: 0 }),
    ];
    assert_eq!(
        sort_by_position(mixed),
        vec![
            at(0, Kind::MoveRight),
            at(0, Kind::MoveLeft),
            at(0, Kind::Input),
            at(1, Kind::Increment),
            at(1, Kind::Decrement),
            at(1, Kind::Output),
            at(1, Kind::LoopStart { target: 0 }),
        ]
    );
}

#[test]
fn sorting_a_sorted_program_changes_nothing() {
    let program = Inst::from_str("+[>,.<-]").unwrap();
    assert_eq!(sort_by_position(program.clone()), program);
}
