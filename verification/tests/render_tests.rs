use rust_pi::rat::Rat;
use rust_pi::ConfidenceInterval;

#[test]
fn display() {
    let ci = ConfidenceInterval {
        lower: Rat::new(1235, 100),
        upper: Rat::new(3485, 100),
    };
    assert_eq!("[12.35, 34.85], x\u{0304} = 23.6 \u{b1} 11.25", ci.render(None));
}

#[test]
fn render_with_precision_rounds_half_away() {
    // exact decimal inputs: the ties at 12.35 and 11.25 round away from zero
    let ci = ConfidenceInterval {
        lower: Rat::new(1235, 100),
        upper: Rat::new(3485, 100),
    };
    assert_eq!("[12.4, 34.9], x\u{0304} = 23.6 \u{b1} 11.3", ci.render(Some(1)));
}

#[test]
fn render_integers_without_a_point() {
    let ci = ConfidenceInterval {
        lower: Rat::new(3, 1),
        upper: Rat::new(7, 1),
    };
    assert_eq!("[3, 7], x\u{0304} = 5 \u{b1} 2", ci.render(None));
}

#[test]
fn render_negative_values() {
    let ci = ConfidenceInterval {
        lower: Rat::new(-5, 2),
        upper: Rat::new(1, 2),
    };
    assert_eq!("[-2.5, 0.5], x\u{0304} = -1 \u{b1} 1.5", ci.render(None));
    assert_eq!(
        "[-2.50, 0.50], x\u{0304} = -1.00 \u{b1} 1.50",
        ci.render(Some(2))
    );
}

#[test]
fn render_carries_a_rounded_fraction() {
    // 0.96 at one decimal place rounds up into the integer part
    let ci = ConfidenceInterval {
        lower: Rat::new(96, 100),
        upper: Rat::new(96, 100),
    };
    assert_eq!("[1.0, 1.0], x\u{0304} = 1.0 \u{b1} 0.0", ci.render(Some(1)));
}

#[test]
fn render_zero_precision_rounds_to_integers() {
    let ci = ConfidenceInterval {
        lower: Rat::new(1235, 100),
        upper: Rat::new(3485, 100),
    };
    assert_eq!("[12, 35], x\u{0304} = 24 \u{b1} 11", ci.render(Some(0)));
}

#[test]
fn render_padded_fraction_digits() {
    let ci = ConfidenceInterval {
        lower: Rat::new(1, 100),
        upper: Rat::new(3, 100),
    };
    assert_eq!("[0.01, 0.03], x\u{0304} = 0.02 \u{b1} 0.01", ci.render(None));
}
