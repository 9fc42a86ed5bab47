use bfvm::inst::{Inst, Kind, StructuralError};

fn kinds_of(source: &str) -> Vec<Kind> {
    Inst::from_str(source).unwrap().iter().map(|inst| inst.kind).collect()
}

#[test]
fn empty_source_is_an_empty_program() {
    assert_eq!(Inst::from_str(""), Ok(vec![]));
}

#[test]
fn commentary_alone_is_an_empty_program() {
    assert_eq!(Inst::from_str("nothing to run here\n\t(really)"), Ok(vec![]));
}

#[test]
fn each_linear_opcode_has_its_kind() {
    assert_eq!(
        kinds_of("><+-.,"),
        vec![
            Kind::MoveRight,
            Kind::MoveLeft,
            Kind::Increment,
            Kind::Decrement,
            Kind::Output,
            Kind::Input,
        ]
    );
}

#[test]
fn empty_loop_resolves_to_two_instructions() {
    assert_eq!(
        Inst::from_str("[]"),
        Ok(vec![
            Inst { idx: 0, kind: Kind::LoopStart { target: 2 } },
            Inst { idx: 1, kind: Kind::LoopEnd { target: 1 } },
        ])
    );
}

#[test]
fn nested_loops_resolve_without_crossing() {
    assert_eq!(
        kinds_of("[[]]"),
        vec![
            Kind::LoopStart { target: 4 },
            Kind::LoopStart { target: 3 },
            Kind::LoopEnd { target: 2 },
            Kind::LoopEnd { target: 1 },
        ]
    );
}

#[test]
fn adjacent_loops_keep_their_own_targets() {
    assert_eq!(
        kinds_of("[][]"),
        vec![
            Kind::LoopStart { target: 2 },
            Kind::LoopEnd { target: 1 },
            Kind::LoopStart { target: 4 },
            Kind::LoopEnd { target: 3 },
        ]
    );
}

#[test]
fn loops_with_bodies_jump_past_their_partner() {
    assert_eq!(
        kinds_of("+[>[-]<-]."),
        vec![
            Kind::Increment,
            Kind::LoopStart { target: 9 },
            Kind::MoveRight,
            Kind::LoopStart { target: 6 },
            Kind::Decrement,
            Kind::LoopEnd { target: 4 },
            Kind::MoveLeft,
            Kind::Decrement,
            Kind::LoopEnd { target: 2 },
            Kind::Output,
        ]
    );
}

#[test]
fn instructions_come_out_in_source_order() {
    let program = Inst::from_str("+[-]>,.<").unwrap();
    assert_eq!(program.len(), 8);
    for (index, inst) in program.iter().enumerate() {
        assert_eq!(inst.idx, index);
    }
    assert_eq!(program[0].kind, Kind::Increment);
    assert_eq!(program[1].kind, Kind::LoopStart { target: 4 });
    assert_eq!(program[3].kind, Kind::LoopEnd { target: 2 });
    assert_eq!(program[7].kind, Kind::MoveLeft);
}

#[test]
fn lone_loop_end_is_unmatched() {
    assert_eq!(Inst::from_str("]"), Err(StructuralError::UnmatchedEnd { position: 0 }));
}

#[test]
fn lone_loop_start_is_unclosed() {
    assert_eq!(Inst::from_str("["), Err(StructuralError::UnclosedStart { position: 0 }));
}

#[test]
fn unmatched_end_reports_the_first_offender() {
    assert_eq!(Inst::from_str("+]"), Err(StructuralError::UnmatchedEnd { position: 1 }));
    assert_eq!(Inst::from_str("[]]"), Err(StructuralError::UnmatchedEnd { position: 2 }));
    assert_eq!(Inst::from_str("[-]+]>]"), Err(StructuralError::UnmatchedEnd { position: 4 }));
    assert_eq!(Inst::from_str("]["), Err(StructuralError::UnmatchedEnd { position: 0 }));
}

#[test]
fn unclosed_start_reports_the_first_offender() {
    assert_eq!(Inst::from_str("[["), Err(StructuralError::UnclosedStart { position: 0 }));
    assert_eq!(Inst::from_str("[[]"), Err(StructuralError::UnclosedStart { position: 0 }));
    assert_eq!(Inst::from_str("[]["), Err(StructuralError::UnclosedStart { position: 2 }));
    assert_eq!(Inst::from_str("+[-]>[[+]"), Err(StructuralError::UnclosedStart { position: 5 }));
}

#[test]
fn unmatched_end_wins_over_unclosed_start() {
    assert_eq!(Inst::from_str("[]]["), Err(StructuralError::UnmatchedEnd { position: 2 }));
    assert_eq!(Inst::from_str("[[]]]["), Err(StructuralError::UnmatchedEnd { position: 4 }));
}

#[test]
fn error_positions_count_opcodes_only() {
    assert_eq!(Inst::from_str("ab ]"), Err(StructuralError::UnmatchedEnd { position: 0 }));
    assert_eq!(
        Inst::from_str("add one + then close ]"),
        Err(StructuralError::UnmatchedEnd { position: 1 })
    );
    assert_eq!(
        Inst::from_str("x + y [ z"),
        Err(StructuralError::UnclosedStart { position: 1 })
    );
}

#[test]
fn commentary_does_not_change_the_program() {
    let bare = "+++++[>+<-]";
    let annotated = "set five: +++++ then [ go right > add + come back < count down - ] done";
    assert_eq!(Inst::from_str(annotated), Inst::from_str(bare));
    assert_eq!(Inst::from_str(annotated).unwrap().len(), 11);
}

#[test]
fn commentary_does_not_change_the_error() {
    assert_eq!(Inst::from_str("a[b[c]d"), Inst::from_str("[[]"));
    assert_eq!(Inst::from_str("a]b"), Inst::from_str("]"));
}

#[test]
fn characters_of_several_bytes_are_commentary() {
    assert_eq!(kinds_of("é+ü[→-]日本"), kinds_of("+[-]"));
    assert_eq!(
        Inst::from_str("日本]"),
        Err(StructuralError::UnmatchedEnd { position: 0 })
    );
}

#[test]
fn loop_starts_and_ends_are_as_many_and_point_at_each_other() {
    let program = Inst::from_str("++[>+[>+<-]>[<+>-]<<-]>[-]+[[-]]").unwrap();
    let starts = program.iter().filter(|inst| matches!(inst.kind, Kind::LoopStart { .. })).count();
    let ends = program.iter().filter(|inst| matches!(inst.kind, Kind::LoopEnd { .. })).count();
    assert_eq!(starts, 6);
    assert_eq!(starts, ends);
    for (index, inst) in program.iter().enumerate() {
        match inst.kind {
            Kind::LoopStart { target } => {
                assert!(index < target - 1);
                assert_eq!(program[target - 1].kind, Kind::LoopEnd { target: index + 1 });
            }
            Kind::LoopEnd { target } => {
                assert!(target - 1 < index);
                assert_eq!(program[target - 1].kind, Kind::LoopStart { target: index + 1 });
            }
            _ => {}
        }
    }
}

#[test]
fn deep_nesting_resolves() {
    let depth = 2000;
    let source = "[".repeat(depth) + &"]".repeat(depth);
    let program = Inst::from_str(&source).unwrap();
    assert_eq!(program.len(), 2 * depth);
    for level in 0..depth {
        assert_eq!(program[level].kind, Kind::LoopStart { target: 2 * depth - level });
        assert_eq!(program[2 * depth - 1 - level].kind, Kind::LoopEnd { target: level + 1 });
    }
}

#[test]
fn long_programs_resolve() {
    let source = "+[>,.<-]".repeat(20000);
    let program = Inst::from_str(&source).unwrap();
    assert_eq!(program.len(), 160000);
    for (index, inst) in program.iter().enumerate() {
        assert_eq!(inst.idx, index);
    }
    assert_eq!(program[8 * 19999 + 1].kind, Kind::LoopStart { target: 8 * 19999 + 8 });
    assert_eq!(program[8 * 19999 + 7].kind, Kind::LoopEnd { target: 8 * 19999 + 2 });
}

fn symbol(kind: Kind) -> char {
    match kind {
        Kind::MoveRight => '>',
        Kind::MoveLeft => '<',
        Kind::Increment => '+',
        Kind::Decrement => '-',
        Kind::Output => '.',
        Kind::Input => ',',
        Kind::LoopStart { .. } => '[',
        Kind::LoopEnd { .. } => ']',
    }
}

#[test]
fn a_program_written_out_resolves_to_itself() {
    let source = "read , then [ echo . and read , ] ++[>+[>+<-]<-] done";
    let program = Inst::from_str(source).unwrap();
    let written: String = program.iter().map(|inst| symbol(inst.kind)).collect();
    assert_eq!(written, ",[.,]++[>+[>+<-]<-]");
    assert_eq!(Inst::from_str(&written), Ok(program));
}

#[test]
fn loops_are_nested_or_apart() {
    let program = Inst::from_str("[[][[]]][[[]][]][]").unwrap();
    let mut loops = Vec::new();
    for (index, inst) in program.iter().enumerate() {
        if let Kind::LoopStart { target } = inst.kind {
            loops.push((index, target - 1));
        }
    }
    assert_eq!(loops.len(), 9);
    for &(a, b) in &loops {
        for &(c, d) in &loops {
            if a < c {
                assert!(b < c || d < b);
            }
        }
    }
}

#[test]
fn targets_stay_within_the_program() {
    let program = Inst::from_str("[]+[[-]>]<[.]").unwrap();
    for (index, inst) in program.iter().enumerate() {
        match inst.kind {
            Kind::LoopStart { target } => assert!(index + 2 <= target && target <= program.len()),
            Kind::LoopEnd { target } => assert!(1 <= target && target <= index),
            _ => {}
        }
    }
    assert_eq!(program[12].kind, Kind::LoopEnd { target: 11 });
    assert_eq!(program[10].kind, Kind::LoopStart { target: 13 });
}
