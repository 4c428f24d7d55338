use std::cell::{Cell, RefCell};

use brainfuck::io::Callbacks;
use brainfuck::program::{Fault, Program};
use brainfuck::state::{OverflowStrategy, State, StateBuilder};

fn run_collect(src: &str, builder: StateBuilder, input: &[u8]) -> (Result<State, Fault>, Vec<u8>, usize) {
    let program = Program::parse(src).expect("source should parse");
    let out = RefCell::new(Vec::new());
    let next = Cell::new(0usize);
    let mut io = Callbacks::new(
        || {
            let i = next.get();
            next.set(i + 1);
            input.get(i).copied().unwrap_or(0)
        },
        |b| out.borrow_mut().push(b),
    );
    let r = program.exec(builder, &mut io);
    drop(io);
    (r, out.into_inner(), next.get())
}

#[test]
fn increments_then_writes_three() {
    let (r, out, _) = run_collect("+++.", State::builder().size(1), &[]);
    assert!(r.is_ok());
    assert_eq!(out, vec![3]);
}

#[test]
fn increments_then_writes_three_with_default_policy() {
    let (r, out, _) = run_collect("+++.", State::builder().overflow(OverflowStrategy::Default), &[]);
    assert!(r.is_ok());
    assert_eq!(out, vec![3]);
}

#[test]
fn read_then_write_echoes_byte() {
    let (r, out, reads) = run_collect(",.", State::builder(), &[65]);
    let s = r.unwrap();
    assert_eq!(out, vec![65]);
    assert_eq!(reads, 1);
    assert_eq!(s.data()[0], 65);
}

#[test]
fn echo_program_reproduces_its_source() {
    let src = ",[.,]";
    let mut input: Vec<u8> = src.bytes().collect();
    input.push(0);
    let (r, out, _) = run_collect(src, State::builder(), &input);
    assert!(r.is_ok());
    assert_eq!(String::from_utf8(out).unwrap(), src);
}

#[test]
fn unmatched_brackets_fail_to_parse() {
    for src in ["]", "[", "[[]", "[]]", "+[-]]", "][", "[[+]", "a]b", "[[[-]]"] {
        assert!(Program::parse(src).is_none(), "{src} should not parse");
    }
}

#[test]
fn matched_brackets_parse() {
    for src in ["", "[]", "[[]]", "+[-[>+<]]", "text only", "[a[b]c]"] {
        assert!(Program::parse(src).is_some(), "{src} should parse");
    }
}

#[test]
fn comments_do_not_change_behaviour() {
    let (r1, out1, _) = run_collect("+++[>++<-]>.", State::builder(), &[]);
    let (r2, out2, _) = run_collect("a+ +\n+x[ >+ +<- ]z>. end", State::builder(), &[]);
    assert_eq!(out1, vec![6]);
    assert_eq!(out1, out2);
    assert_eq!(r1.unwrap().data()[..2], r2.unwrap().data()[..2]);
}

#[test]
fn zero_guard_loop_runs_no_iterations() {
    let (r, out, reads) = run_collect("[+.,]", State::builder(), &[9]);
    let s = r.unwrap();
    assert!(out.is_empty());
    assert_eq!(reads, 0);
    assert_eq!(s.data()[0], 0);
}

#[test]
fn decrement_loop_from_five_runs_five_times() {
    let (r, _, _) = run_collect("+++++[-]", State::builder().iteration_limit(5), &[]);
    assert_eq!(r.unwrap().data()[0], 0);
    let (r, _, _) = run_collect("+++++[-]", State::builder().iteration_limit(4), &[]);
    assert_eq!(r.unwrap_err(), Fault::IterationLimit);
}

#[test]
fn increment_loop_from_five_wraps_to_zero() {
    let (r, _, _) = run_collect("+++++[+]", State::builder().iteration_limit(251), &[]);
    assert_eq!(r.unwrap().data()[0], 0);
    let (r, _, _) = run_collect("+++++[+]", State::builder().iteration_limit(250), &[]);
    assert_eq!(r.unwrap_err(), Fault::IterationLimit);
}

#[test]
fn wrap_increment_at_255_gives_zero() {
    let (r, out, _) = run_collect("-.+.", State::builder().overflow(OverflowStrategy::Wrap), &[]);
    assert!(r.is_ok());
    assert_eq!(out, vec![255, 0]);
}

#[test]
fn default_increment_at_255_gives_zero() {
    let (r, out, _) = run_collect("-.+.", State::builder().overflow(OverflowStrategy::Default), &[]);
    assert!(r.is_ok());
    assert_eq!(out, vec![255, 0]);
}

#[test]
fn panic_policy_refuses_increment_at_255() {
    let src: String = "+".repeat(255) + ".+.";
    let (r, out, _) = run_collect(&src, State::builder().overflow(OverflowStrategy::Panic), &[]);
    assert_eq!(r.unwrap_err(), Fault::Overflow);
    assert_eq!(out, vec![255]);
}

#[test]
fn panic_policy_refuses_decrement_at_zero() {
    let (r, _, _) = run_collect("-", State::builder().overflow(OverflowStrategy::Panic), &[]);
    assert_eq!(r.unwrap_err(), Fault::Overflow);
}

#[test]
fn custom_policy_uses_its_tables() {
    let mut inc = [0u8; 256];
    let mut dec = [0u8; 256];
    for i in 0..256usize {
        inc[i] = (i as u8).wrapping_add(2);
        dec[i] = (i as u8).wrapping_sub(3);
    }
    let b = State::builder().overflow(OverflowStrategy::Custom((inc, dec)));
    let (r, out, _) = run_collect("++.-.", b, &[]);
    assert!(r.is_ok());
    assert_eq!(out, vec![4, 1]);
}

#[test]
fn moving_left_of_first_cell_fails() {
    let (r, _, _) = run_collect("<", State::builder(), &[]);
    assert_eq!(r.unwrap_err(), Fault::OutOfBounds);
}

#[test]
fn access_past_last_cell_fails() {
    let (r, _, _) = run_collect(">", State::builder().size(1), &[]);
    assert_eq!(r.unwrap().pos(), 1);
    let (r, _, _) = run_collect(">+", State::builder().size(1), &[]);
    assert_eq!(r.unwrap_err(), Fault::OutOfBounds);
    let (r, _, _) = run_collect(".", State::builder().size(0), &[]);
    assert_eq!(r.unwrap_err(), Fault::OutOfBounds);
}

#[test]
fn default_tape_has_thirty_thousand_zero_cells() {
    let (r, _, _) = run_collect("", State::builder(), &[]);
    let s = r.unwrap();
    assert_eq!(s.data().len(), 30000);
    assert!(s.data().iter().all(|&c| c == 0));
    assert_eq!(s.pos(), 0);
}

#[test]
fn same_program_twice_gives_same_tape() {
    let program = Program::parse(",>,[<+>-]<.").unwrap();
    let run = || {
        program
            .exec(State::builder().size(8), &mut Callbacks::new(|| 7u8, |_| {}))
            .unwrap()
    };
    let a = run();
    let b = run();
    assert_eq!(a.data(), b.data());
    assert_eq!(a.pos(), b.pos());
    assert_eq!(a.data()[0], 14);
}

#[test]
fn nested_loops_multiply() {
    let (r, out, _) = run_collect("++++[>+++[>++<-]<-]>>.", State::builder().size(3), &[]);
    assert!(r.is_ok());
    assert_eq!(out, vec![24]);
}

#[test]
fn tape_primitives_change_current_cell() {
    let (r, _, _) = run_collect(">", State::builder().size(3), &[]);
    let mut s = r.unwrap();
    s.set(10);
    s.inc();
    assert_eq!(s.get(), 11);
    s.dec();
    s.dec();
    assert_eq!(s.get(), 9);
    s.move_r();
    assert_eq!(s.pos(), 2);
    s.move_l();
    s.move_l();
    assert_eq!(s.pos(), 0);
    assert_eq!(s.data(), &[0, 9, 0]);
}

#[test]
fn loop_writes_each_iteration() {
    let (r, out, reads) = run_collect("+++++[-.]", State::builder(), &[]);
    let s = r.unwrap();
    assert_eq!(out, vec![4, 3, 2, 1, 0]);
    assert_eq!(reads, 0);
    assert_eq!(s.data()[0], 0);
    assert_eq!(s.pos(), 0);
}

#[test]
fn empty_program_calls_no_callback() {
    let (r, out, reads) = run_collect("no commands here", State::builder().size(2), &[]);
    assert!(r.is_ok());
    assert!(out.is_empty());
    assert_eq!(reads, 0);
}

#[test]
fn reads_once_per_comma() {
    let (r, out, reads) = run_collect(",,,", State::builder(), &[1, 2, 3, 4]);
    assert_eq!(r.unwrap().data()[0], 3);
    assert!(out.is_empty());
    assert_eq!(reads, 3);
}
