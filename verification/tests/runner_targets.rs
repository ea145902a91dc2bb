// Trivial tests that evidence markers elsewhere name by their exact
// test names: their only job is to exist and pass.

#[test]
fn a() {}

#[test]
fn b() {}

#[test]
fn c() {}

#[test]
fn a_real_test_with_a_different_name() {}
