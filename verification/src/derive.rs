//! The text that derives a keycode's scalar position.
//!
//! Rust code is taken and given as text. The calls into `proc_macro2` and `syn` are made with
//! `proc_macro2::fallback` in force, so that the text does not depend on the compiler that may be
//! around.
use frozen_collections_core::macros::derive_scalar_macro;
use proc_macro2::{fallback, TokenStream};
use quote::ToTokens;
use syn::{parse_str, Error, ItemImpl, Path};
use vstd::prelude::*;

verus! {

/// The text in a result.
pub open spec fn as_text(result: Result<String, String>) -> Result<Seq<char>, Seq<char>> {
    match result {
        Ok(code) => Ok(code@),
        Err(error) => Err(error@),
    }
}

/// What `frozen_collections_core::macros::derive_scalar_macro` makes of the code of a type: the
/// code of an impl, or that of a compile error.
pub uninterp spec fn generated(item: Seq<char>) -> Result<Seq<char>, Seq<char>>;

/// Calls `frozen_collections_core::macros::derive_scalar_macro`. The result, as text, depends on
/// the code of the type alone. If the text is not code, it is the compile error of
/// `syn::parse_str`.
#[verifier::external_body]
fn generate(item: &str) -> (code: Result<String, String>)
    ensures
        as_text(code) == generated(item@),
{
    fallback::force();
    let code = match parse_str::<TokenStream>(item) {
        Ok(tokens) => match derive_scalar_macro(tokens) {
            Ok(code) => Ok(code.to_string()),
            Err(error) => Err(error.to_compile_error().to_string()),
        },
        Err(error) => Err(error.to_compile_error().to_string()),
    };
    fallback::unforce();
    code
}

/// What `syn::parse_str` finds in the code of an impl: the path of the trait, if it is one of a
/// trait, or the code of a compile error.
pub uninterp spec fn parsed_trait(code: Seq<char>) -> Result<Option<Seq<char>>, Seq<char>>;

/// The text in the result of looking for a trait.
pub open spec fn as_trait_text(result: Result<Option<String>, String>) -> Result<
    Option<Seq<char>>,
    Seq<char>,
> {
    match result {
        Ok(Some(path)) => Ok(Some(path@)),
        Ok(None) => Ok(None),
        Err(error) => Err(error@),
    }
}

/// Calls `syn::parse_str` for an impl, and renders the path of its trait. The result, as text,
/// depends on the code alone.
#[verifier::external_body]
fn find_trait(code: &str) -> (path: Result<Option<String>, String>)
    ensures
        as_trait_text(path) == parsed_trait(code@),
{
    fallback::force();
    let path = match parse_str::<ItemImpl>(code) {
        Ok(item) => Ok(item.trait_.map(|(_, path, _)| path.to_token_stream().to_string())),
        Err(error) => Err(error.to_compile_error().to_string()),
    };
    fallback::unforce();
    path
}

/// What `syn::parse_str` finds in the code of a path: the path, or the code of a compile error.
pub uninterp spec fn parsed_path(path: Seq<char>) -> Result<Seq<char>, Seq<char>>;

/// Calls `syn::parse_str` for a path, and renders it. The result, as text, depends on the code
/// alone.
#[verifier::external_body]
fn find_path(path: &str) -> (found: Result<String, String>)
    ensures
        as_text(found) == parsed_path(path@),
{
    fallback::force();
    let found = match parse_str::<Path>(path) {
        Ok(path) => Ok(path.to_token_stream().to_string()),
        Err(error) => Err(error.to_compile_error().to_string()),
    };
    fallback::unforce();
    found
}

/// The code of an impl, after `syn` has parsed it and put another path in the place of the
/// trait's, or the code of a compile error.
pub uninterp spec fn with_trait(code: Seq<char>, path: Seq<char>) -> Result<Seq<char>, Seq<char>>;

/// Calls `syn::parse_str` for an impl and for a path, which becomes the path of the impl's trait
/// if it has one, and renders the impl. The result, as text, depends on the two texts alone. It is
/// an error exactly if one of the two texts does not parse. What parsing the result again finds is
/// not stated.
#[verifier::external_body]
fn set_trait(code: &str, path: &str) -> (changed: Result<String, String>)
    ensures
        as_text(changed) == with_trait(code@, path@),
        (changed is Ok) == (parsed_trait(code@) is Ok && parsed_path(path@) is Ok),
{
    fallback::force();
    let changed = match (parse_str::<ItemImpl>(code), parse_str::<Path>(path)) {
        (Ok(mut item), Ok(path)) => {
            item.trait_ = item.trait_.map(|(bang, _, of)| (bang, path, of));
            Ok(item.to_token_stream().to_string())
        },
        (Err(error), _) => Err(error.to_compile_error().to_string()),
        (_, Err(error)) => Err(error.to_compile_error().to_string()),
    };
    fallback::unforce();
    changed
}

/// The code of an impl, after `syn` has parsed it, or the code of a compile error.
pub uninterp spec fn rendered(code: Seq<char>) -> Result<Seq<char>, Seq<char>>;

/// Calls `syn::parse_str` for an impl, and renders it. The result, as text, depends on the code
/// alone. It is an error exactly if the code does not parse.
#[verifier::external_body]
fn render(code: &str) -> (same: Result<String, String>)
    ensures
        as_text(same) == rendered(code@),
        (same is Ok) == (parsed_trait(code@) is Ok),
{
    fallback::force();
    let same = match parse_str::<ItemImpl>(code) {
        Ok(item) => Ok(item.to_token_stream().to_string()),
        Err(error) => Err(error.to_compile_error().to_string()),
    };
    fallback::unforce();
    same
}

/// The code of a compile error with a message about the code of an impl.
pub uninterp spec fn complaint(code: Seq<char>, message: Seq<char>) -> Seq<char>;

/// Calls `syn::Error::new_spanned` on an impl. If the code is not that of an impl, it is the
/// compile error of `syn::parse_str`. The code of the error depends on the two texts alone.
#[verifier::external_body]
fn complain(code: &str, message: &str) -> (error: String)
    ensures
        error@ == complaint(code@, message@),
{
    fallback::force();
    let error = match parse_str::<ItemImpl>(code) {
        Ok(item) => Error::new_spanned(&item, message).to_compile_error().to_string(),
        Err(error) => error.to_compile_error().to_string(),
    };
    fallback::unforce();
    error
}

/// What is to be done with an impl.
#[derive(Copy, Clone, Debug, PartialEq, Eq, Structural)]
pub enum Treatment {
    /// Its trait gives way to another one.
    Replace,
    /// It stays as it is.
    Keep,
    /// It is not the impl of a trait.
    Reject,
}

/// What is to be done with an impl whose trait has this path.
pub open spec fn treatment(path: Option<Seq<char>>) -> Treatment {
    match path {
        None => Treatment::Reject,
        Some(path) => if path == ":: frozen_collections :: Scalar"@ {
            Treatment::Replace
        } else {
            Treatment::Keep
        },
    }
}

/// Tells what is to be done with an impl whose trait has this path.
pub fn treat(path: &Option<String>) -> (choice: Treatment)
    ensures
        choice == treatment(
            match *path {
                Some(path) => Some(path@),
                None => None,
            },
        ),
{
    match path {
        None => Treatment::Reject,
        // tokens are parted by spaces
        Some(path) => if *path == ":: frozen_collections :: Scalar".to_owned() {
            Treatment::Replace
        } else {
            Treatment::Keep
        },
    }
}

/// The code of an impl, where a path replaces that of the generated trait.
pub open spec fn replaced(code: Seq<char>, path: Seq<char>) -> Result<Seq<char>, Seq<char>> {
    match parsed_trait(code) {
        Err(error) => Err(error),
        Ok(found) => match treatment(found) {
            Treatment::Replace => match parsed_path(path) {
                Err(error) => Err(error),
                Ok(_) => with_trait(code, path),
            },
            Treatment::Keep => rendered(code),
            Treatment::Reject => Err(
                complaint(code, "Expected an impl block that implements a trait"@),
            ),
        },
    }
}

/// The code is that of an impl of a trait.
pub open spec fn is_trait_impl(code: Seq<char>) -> bool {
    parsed_trait(code) matches Ok(Some(_))
}

/// The code is that of an impl of the generated trait.
pub open spec fn is_generated(code: Seq<char>) -> bool {
    parsed_trait(code) == Ok::<Option<Seq<char>>, Seq<char>>(
        Some(":: frozen_collections :: Scalar"@),
    )
}

/// Replaces the path of the trait in a generated impl. An error is the code of a compile error. It
/// fails only if the code is not that of an impl, if the impl is not one of a trait, or if the path
/// is needed and is none.
pub fn replace_scalar_trait(generated_code: &str, new_trait_path: &str) -> (result: Result<
    String,
    String,
>)
    ensures
        as_text(result) == replaced(generated_code@, new_trait_path@),
        result is Ok <==> is_trait_impl(generated_code@) && (is_generated(generated_code@)
            ==> parsed_path(new_trait_path@) is Ok),
{
    match find_trait(generated_code) {
        Err(error) => Err(error),
        Ok(found) => match treat(&found) {
            Treatment::Replace => match find_path(new_trait_path) {
                Err(error) => Err(error),
                Ok(_) => set_trait(generated_code, new_trait_path),
            },
            Treatment::Keep => render(generated_code),
            Treatment::Reject => Err(
                complain(generated_code, "Expected an impl block that implements a trait"),
            ),
        },
    }
}

/// The code in a result, be it that of an error.
pub open spec fn code_in(result: Result<Seq<char>, Seq<char>>) -> Seq<char> {
    match result {
        Ok(code) => code,
        Err(error) => error,
    }
}

/// Derives the code that makes a type a scalar, from the code of the type. If that fails, it is
/// the code of a compile error.
pub fn derive_scalar(item: &str) -> (code: String)
    ensures
        code@ == code_in(
            replaced(code_in(generated(item@)), "::esperto::types::Scalar"@),
        ),
{
    let impl_code = match generate(item) {
        Ok(code) => code,
        Err(error) => error,
    };
    match replace_scalar_trait(impl_code.as_str(), "::esperto::types::Scalar") {
        Ok(code) => code,
        Err(error) => error,
    }
}

/// What becomes of the code of an impl: it is an error if it is not one, or not one of a trait. The
/// path of the generated trait gives way to the other path, and that of another trait stays.
pub proof fn only_the_generated_trait_gives_way(code: Seq<char>, path: Seq<char>)
    ensures
        match parsed_trait(code) {
            Err(error) => replaced(code, path) == Err::<Seq<char>, Seq<char>>(error),
            Ok(None) => replaced(code, path) is Err,
            Ok(Some(found)) => if found =~= ":: frozen_collections :: Scalar"@ {
                parsed_path(path) is Ok ==> replaced(code, path) == with_trait(code, path)
            } else {
                replaced(code, path) == rendered(code)
            },
        },
{
}

} // verus!
