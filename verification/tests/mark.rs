use xsos::Mark;

#[test]
fn swap_exchanges_the_marks() {
    let x = Mark::X;
    let o = Mark::O;

    assert_eq!(x.swap(), o);
    assert_eq!(o.swap(), x);
}

#[test]
fn swapping_twice_gives_back_the_same_mark() {
    assert_eq!(Mark::X.swap().swap(), Mark::X);
    assert_eq!(Mark::O.swap().swap(), Mark::O);
}

#[test]
fn marks_render_as_lowercase_letters() {
    assert_eq!(Mark::X.letter(), 'x');
    assert_eq!(Mark::O.letter(), 'o');
}
