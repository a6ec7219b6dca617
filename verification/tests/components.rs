use sismokaos::components::{component_of, missing_component, note_component};

#[test]
fn component_is_read_from_last_field() {
    assert_eq!(component_of("TU.ELZG.00.HHZ"), None); // first char of "HHZ" is H
    assert_eq!(component_of("FDSN:TU_ELZG_00_H_H_Z"), Some('Z'));
    assert_eq!(component_of("FDSN:TU_ELZG_00_H_H_N"), Some('N'));
    assert_eq!(component_of("FDSN:TU_ELZG_00_H_H_E"), Some('E'));
    assert_eq!(component_of("FDSN:TU_ELZG_00_H_H_1"), Some('E'));
    assert_eq!(component_of("FDSN:TU_ELZG_00_H_H_2"), Some('N'));
    assert_eq!(component_of("X.Y.z"), Some('Z'));
    assert_eq!(component_of("X.Y.north"), Some('N'));
    assert_eq!(component_of("X.Y.e1"), Some('E'));
    assert_eq!(component_of("X.Y.3"), None);
    assert_eq!(component_of("X.Y."), None);
    assert_eq!(component_of(""), None);
    assert_eq!(component_of("Z"), Some('Z'));
    assert_eq!(component_of("a.b_Ezz"), Some('E'));
}

#[test]
fn missing_component_reports_first_absent() {
    assert_eq!(missing_component(&vec![]), Some('E'));
    assert_eq!(missing_component(&vec!['Z', 'E']), Some('N'));
    assert_eq!(missing_component(&vec!['N', 'E']), Some('Z'));
    assert_eq!(missing_component(&vec!['Z', 'N', 'E']), None);
}

#[test]
fn noting_components_keeps_first_seen_order() {
    let mut seen = Vec::new();
    for c in ['Z', 'E', 'Z', 'N', 'E'] {
        note_component(&mut seen, c);
    }
    assert_eq!(seen, vec!['Z', 'E', 'N']);
}
