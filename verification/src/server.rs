//! The decision behind a proof request: whether the requested address is on
//! the whitelist. Addresses are compared in lower case, with one optional
//! leading `0x`.
use vstd::prelude::*;

verus! {

/// The lower-case form of a text, as `str::to_lowercase` computes it.
pub uninterp spec fn lowercase_text(s: Seq<char>) -> Seq<char>;

/// `str::to_lowercase`. The mapping is Unicode's and does not depend on the
/// locale, so the result is a function of the text alone; beyond that name
/// it is left unstated here.
#[verifier::external_body]
fn to_lowercase(s: &str) -> (lower: String)
    ensures
        lower@ == lowercase_text(s@),
{
    s.to_lowercase()
}

/// Whether `s` starts with `"0x"`.
pub open spec fn has_0x(s: Seq<char>) -> bool {
    s.len() >= 2 && s[0] == '0' && s[1] == 'x'
}

/// `s` without one leading `"0x"`, if it has one.
pub open spec fn strip_one_0x(s: Seq<char>) -> Seq<char> {
    if has_0x(s) {
        s.subrange(2, s.len() as int)
    } else {
        s
    }
}

/// The form in which addresses are compared: lower-cased, then one leading
/// `"0x"` removed.
pub open spec fn normalized_address(s: Seq<char>) -> Seq<char> {
    strip_one_0x(lowercase_text(s))
}

/// Removes one leading `"0x"` from an already lower-cased address, if present.
pub fn strip_optional_0x(lowered: &str) -> (digits: &str)
    ensures
        digits@ == strip_one_0x(lowered@),
{
    let n = lowered.unicode_len();
    if n >= 2 && lowered.get_char(0) == '0' && lowered.get_char(1) == 'x' {
        lowered.substring_char(2, n)
    } else {
        lowered.substring_char(0, n)
    }
}

/// The normalised form of an address.
pub fn normalize_address(address: &str) -> (out: String)
    ensures
        out@ == normalized_address(address@),
{
    let lowered = to_lowercase(address);
    let digits = strip_optional_0x(lowered.as_str());
    digits.to_owned()
}

/// Whether `address` is one of `addresses`, compared in normalised form:
/// letter case and one leading `0x` do not matter.
pub fn is_whitelisted(addresses: &[String], address: &str) -> (found: bool)
    ensures
        found <==> exists|i: int|
            0 <= i < addresses.len() && normalized_address((#[trigger] addresses@[i])@)
                == normalized_address(address@),
{
    let wanted = normalize_address(address);
    let mut i: usize = 0;
    while i < addresses.len()
        invariant
            i <= addresses.len(),
            wanted@ == normalized_address(address@),
            forall|k: int|
                0 <= k < i ==> normalized_address((#[trigger] addresses@[k])@)
                    != normalized_address(address@),
        decreases addresses.len() - i,
    {
        let candidate = normalize_address(addresses[i].as_str());
        if candidate == wanted {
            return true;
        }
        i = i + 1;
    }
    false
}

/// In lower-cased form, an address written with `0x` and the same address
/// written without it compare equal; a doubled `0x` does not.
pub proof fn lemma_one_optional_0x(digits: Seq<char>)
    requires
        !has_0x(digits),
    ensures
        strip_one_0x(seq!['0', 'x'] + digits) == strip_one_0x(digits),
        strip_one_0x(seq!['0', 'x'] + (seq!['0', 'x'] + digits)) == seq!['0', 'x'] + digits,
{
    let p = seq!['0', 'x'] + digits;
    assert(p.subrange(2, p.len() as int) =~= digits);
    let pp = seq!['0', 'x'] + p;
    assert(pp.subrange(2, pp.len() as int) =~= p);
}

} // verus!
