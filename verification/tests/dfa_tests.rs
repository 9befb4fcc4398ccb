use minilex::dfa::{Component, SliceDFA};

#[test]
fn it_inverts() {
    let input: &[bool] = &[true, true, false, true][..];
    let dfa = [
        Component::Input(true, 2),
        Component::Input(false, 4),
        Component::Output(false),
        Component::Jump(0),
        Component::Output(true),
        Component::Jump(0),
    ];
    let mut output = [false, false, false, false];
    assert_eq!(SliceDFA::new(&dfa[..]).eval(0, input, &mut output), (4, 0));
    assert_eq!(output, [false, false, true, false]);
}

#[test]
fn it_stops_eventually() {
    let input: &[bool] = &[][..];
    let dfa = [
        Component::Jump(0),
        Component::Input(false, 0),
        Component::Output(false),
    ];
    let mut output = [];
    assert_eq!(SliceDFA::new(&dfa[..]).eval(0, input, &mut output), (0, 0));
}

#[test]
fn it_doesnt_panic_on_output() {
    let input: &[bool] = &[][..];
    let dfa = [
        Component::Output(false),
        Component::Jump(0),
        Component::Input(false, 0),
    ];
    let mut output = [false];
    assert_eq!(SliceDFA::new(&dfa[..]).eval(0, input, &mut output), (1, 0));
}
