use cortex_fusion::activation::{Selu, Softsign, Tanhshrink};

#[test]
fn selu_display() {
    let layer = Selu::new();

    assert_eq!(layer.to_string(), "Selu");
}

#[test]
fn softsign_display() {
    let layer = Softsign::new();

    assert_eq!(layer.to_string(), "Softsign");
}

#[test]
fn tanhshrink_display() {
    let layer = Tanhshrink::new();

    assert_eq!(layer.to_string(), "Tanhshrink");
}
