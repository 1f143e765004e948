use core::convert::Infallible;
use core::ops::ControlFlow;
use enjoin::polyfill::{FromResidual, Try};

#[derive(Debug, PartialEq)]
struct Wide(String);

impl From<&'static str> for Wide {
    fn from(text: &'static str) -> Wide {
        Wide(text.to_uppercase())
    }
}

#[test]
fn an_option_goes_on_with_its_value_or_stops_with_nothing() {
    assert_eq!(Some(5).branch(), ControlFlow::Continue(5));
    assert_eq!(None::<i32>.branch(), ControlFlow::Break(None));
    assert_eq!(<Option<i32> as Try>::from_output(7), Some(7));
    assert_eq!(<Option<i32> as Try>::from_output(7).branch(), ControlFlow::Continue(7));
    let residual: Option<Infallible> = None;
    assert_eq!(<Option<&str> as FromResidual>::from_residual(residual), None);
}

#[test]
fn a_result_goes_on_with_its_value_or_stops_with_its_error() {
    let fine: Result<i32, &str> = Ok(5);
    let failed: Result<i32, &str> = Err("oh no");
    assert_eq!(fine.branch(), ControlFlow::Continue(5));
    assert_eq!(failed.branch(), ControlFlow::Break(Err("oh no")));
    assert_eq!(<Result<i32, &str> as Try>::from_output(3), Ok(3));
}

#[test]
fn a_residual_is_converted_into_the_error_of_the_target() {
    let residual: Result<Infallible, &'static str> = Err("nope");
    let same: Result<u8, &'static str> = FromResidual::from_residual(residual);
    assert_eq!(same, Err("nope"));
    let wide: Result<(), Wide> = FromResidual::from_residual(residual);
    assert_eq!(wide, Err(Wide("NOPE".to_string())));
}

fn chain(first: Result<i32, &'static str>, second: Result<i32, &'static str>) -> Result<i32, Wide> {
    let a = match Try::branch(first) {
        ControlFlow::Break(b) => return FromResidual::from_residual(b),
        ControlFlow::Continue(c) => c,
    };
    let b = match Try::branch(second) {
        ControlFlow::Break(b) => return FromResidual::from_residual(b),
        ControlFlow::Continue(c) => c,
    };
    Ok(a + b)
}

#[test]
fn try_continue() {
    assert_eq!(chain(Ok(5), Ok(6)), Ok(11));
}

#[test]
fn try_break() {
    assert_eq!(chain(Ok(5), Err("oh no")), Err(Wide("OH NO".to_string())));
    assert_eq!(chain(Err("first"), Err("second")), Err(Wide("FIRST".to_string())));
}
