use fn_args_validator::semantics::run_guarded;
use fn_args_validator::with_validation as directive;
use fn_args_validator::Validatable;
use proc_macro2::TokenStream;
use std::str::FromStr;

/// An integer whose validation fails with its own value unless it lies
/// strictly between 0 and 100.
struct Ranged(i32);

impl Validatable<i32> for Ranged {
    fn validate(&self) -> Result<(), i32> {
        if self.0 > 0 && self.0 < 100 {
            Ok(())
        } else {
            Err(self.0)
        }
    }
}

/// What the directive makes of `sum` for the identifiers `x, y`, written out
/// as source text.
const EMITTED: &str = "fn sum(x: Ranged, y: Ranged) -> Result<i32, i32> { \
    { let __result = y.validate(); if __result.is_err() { return Err(__result.err().unwrap()); } } \
    { let __result = x.validate(); if __result.is_err() { return Err(__result.err().unwrap()); } } \
    Ok(x.0 + y.0) }";

/// The same text, compiled.
fn sum(x: Ranged, y: Ranged) -> Result<i32, i32> {
    { let __result = y.validate(); if __result.is_err() { return Err(__result.err().unwrap()); } }
    { let __result = x.validate(); if __result.is_err() { return Err(__result.err().unwrap()); } }
    Ok(x.0 + y.0)
}

fn modelled(x: i32, y: i32) -> Result<i32, i32> {
    let (x, y) = (Ranged(x), Ranged(y));
    run_guarded(&[&x, &y], || Ok(x.0 + y.0))
}

#[test]
fn directive_emits_the_text_that_is_compiled_here() {
    let arguments = TokenStream::from_str("x, y").unwrap();
    let function =
        TokenStream::from_str("fn sum(x: Ranged, y: Ranged) -> Result<i32, i32> { Ok(x.0 + y.0) }")
            .unwrap();
    let emitted = directive(arguments, function);
    assert_eq!(emitted.to_string(), TokenStream::from_str(EMITTED).unwrap().to_string());
}

#[test]
fn emitted_guards_return_what_the_model_returns() {
    let values = [-5, 0, 1, 2, 50, 99, 100, 120];
    for x in values {
        for y in values {
            assert_eq!(sum(Ranged(x), Ranged(y)), modelled(x, y));
        }
    }
}

#[test]
fn emitted_guards_on_given_values() {
    assert_eq!(sum(Ranged(1), Ranged(2)), Ok(3));
    assert_eq!(sum(Ranged(120), Ranged(2)), Err(120));
    assert_eq!(sum(Ranged(1), Ranged(200)), Err(200));
    assert_eq!(sum(Ranged(120), Ranged(200)), Err(200));
}
