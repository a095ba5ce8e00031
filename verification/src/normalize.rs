use unicode_normalization::UnicodeNormalization;
use vstd::prelude::*;

verus! {

/// The form to which the patterns of a dictionary are brought before they
/// are compiled. It is chosen once, for a whole build.
#[derive(Clone, Copy, Debug, PartialEq, Eq, Structural)]
pub enum Normalization {
    /// The text stays as it is.
    Verbatim,
    /// Canonical decomposition, then canonical composition.
    Nfc,
    /// Canonical decomposition.
    Nfd,
    /// Compatibility decomposition, then canonical composition.
    Nfkc,
    /// Compatibility decomposition.
    Nfkd,
}

/// The text in Unicode Normalization Form C, as `unicode-normalization`
/// gives it.
pub uninterp spec fn nfc_of(text: Seq<char>) -> Seq<char>;

/// The text in Unicode Normalization Form D, as `unicode-normalization`
/// gives it.
pub uninterp spec fn nfd_of(text: Seq<char>) -> Seq<char>;

/// The text in Unicode Normalization Form KC, as `unicode-normalization`
/// gives it.
pub uninterp spec fn nfkc_of(text: Seq<char>) -> Seq<char>;

/// The text in Unicode Normalization Form KD, as `unicode-normalization`
/// gives it.
pub uninterp spec fn nfkd_of(text: Seq<char>) -> Seq<char>;

/// Calls `UnicodeNormalization::nfc` on the text and collects the
/// characters: the text in Form C, which depends on the text alone.
#[verifier::external_body]
fn nfc(text: &str) -> (normal: String)
    ensures
        normal@ == nfc_of(text@),
{
    text.nfc().collect()
}

/// Calls `UnicodeNormalization::nfd` on the text and collects the
/// characters: the text in Form D, which depends on the text alone.
#[verifier::external_body]
fn nfd(text: &str) -> (normal: String)
    ensures
        normal@ == nfd_of(text@),
{
    text.nfd().collect()
}

/// Calls `UnicodeNormalization::nfkc` on the text and collects the
/// characters: the text in Form KC, which depends on the text alone.
#[verifier::external_body]
fn nfkc(text: &str) -> (normal: String)
    ensures
        normal@ == nfkc_of(text@),
{
    text.nfkc().collect()
}

/// Calls `UnicodeNormalization::nfkd` on the text and collects the
/// characters: the text in Form KD, which depends on the text alone.
#[verifier::external_body]
fn nfkd(text: &str) -> (normal: String)
    ensures
        normal@ == nfkd_of(text@),
{
    text.nfkd().collect()
}

/// The text in the given form.
pub open spec fn normalized(form: Normalization, text: Seq<char>) -> Seq<char> {
    match form {
        Normalization::Verbatim => text,
        Normalization::Nfc => nfc_of(text),
        Normalization::Nfd => nfd_of(text),
        Normalization::Nfkc => nfkc_of(text),
        Normalization::Nfkd => nfkd_of(text),
    }
}

/// Brings the text to the given form.
pub fn normalize(form: Normalization, text: &str) -> (normal: String)
    ensures
        normal@ == normalized(form, text@),
{
    match form {
        Normalization::Verbatim => text.to_owned(),
        Normalization::Nfc => nfc(text),
        Normalization::Nfd => nfd(text),
        Normalization::Nfkc => nfkc(text),
        Normalization::Nfkd => nfkd(text),
    }
}

} // verus!
