//! Variable scopes: lookup from the innermost frame out, assignment where a
//! name is bound, definitions in the innermost frame.

use rach::scopes::Scopes;

#[test]
fn assignment_reads_back_and_leaves_other_names() {
    let mut sc: Scopes<i32> = Scopes::new();
    sc.set_var("x".to_string(), 1);
    sc.set_var("y".to_string(), 2);
    sc.set_var("x".to_string(), 3);
    assert_eq!(sc.lookup("x"), Some(&3));
    assert_eq!(sc.lookup("y"), Some(&2));
    assert_eq!(sc.lookup("z"), None);
}

#[test]
fn inner_frames_shadow_and_pop_restores() {
    let mut sc: Scopes<i32> = Scopes::new();
    sc.set_var("x".to_string(), 1);
    sc.push_frame();
    sc.define("x".to_string(), 10);
    assert_eq!(sc.lookup("x"), Some(&10));
    sc.set_var("y".to_string(), 5);
    sc.pop_frame();
    assert_eq!(sc.lookup("x"), Some(&1));
    assert_eq!(sc.lookup("y"), None);
}

#[test]
fn assignment_updates_the_outer_binding() {
    let mut sc: Scopes<i32> = Scopes::new();
    sc.set_var("n".to_string(), 1);
    sc.push_frame();
    sc.set_var("n".to_string(), 2);
    sc.pop_frame();
    assert_eq!(sc.lookup("n"), Some(&2));
}
