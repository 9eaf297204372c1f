use mirlens::samples::aggregate::build;
use mirlens::samples::branch::pick;
use mirlens::samples::call::outer;
use mirlens::samples::complex::run;
use mirlens::samples::compose::{quad, ten};
use mirlens::samples::compose_heap::caller;
use mirlens::samples::connected::{double, inc, top};
use mirlens::samples::field::{get_x, Point};
use mirlens::samples::ref_read::g;
use mirlens::samples::ref_write::h;
use mirlens::samples::select::step;
use mirlens::samples::shared::two_refs;

#[test]
fn samples_compute_what_their_summaries_say() {
    assert_eq!(build(), 3);
    assert_eq!(pick(true), 1);
    assert_eq!(pick(false), 2);
    assert_eq!(get_x(Point { x: 8, y: 9 }), 8);
    assert_eq!(g(), 5);
    assert_eq!(h(), 7);
    assert_eq!(step(true, 4), 5);
    assert_eq!(step(false, 4), 3);
}

#[test]
fn composed_samples() {
    assert_eq!(outer(5), 11);
    assert_eq!(quad(3), 12);
    assert_eq!(ten(), 10);
    assert_eq!(caller(), 7);
    assert_eq!(double(-4), -8);
    assert_eq!(inc(4), 5);
    assert_eq!(top(2), 20);
    assert_eq!(two_refs(), 10);
}

#[test]
fn complex_sample_by_flag() {
    assert_eq!(run(true), 10);
    assert_eq!(run(false), 2);
}
