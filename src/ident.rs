//! Public identifiers ("ID" followed by a sequence number) and referral input
//! parsing.

use vstd::prelude::*;

verus! {

/// The character of a decimal digit.
pub open spec fn digit_char(d: nat) -> char {
    if d == 0 {
        '0'
    } else if d == 1 {
        '1'
    } else if d == 2 {
        '2'
    } else if d == 3 {
        '3'
    } else if d == 4 {
        '4'
    } else if d == 5 {
        '5'
    } else if d == 6 {
        '6'
    } else if d == 7 {
        '7'
    } else if d == 8 {
        '8'
    } else {
        '9'
    }
}

/// The decimal digits of `n`, most significant first, without leading zeros.
pub open spec fn decimal(n: nat) -> Seq<char>
    decreases n,
{
    if n < 10 {
        seq![digit_char(n)]
    } else {
        decimal(n / 10).push(digit_char(n % 10))
    }
}

/// The prefix shared by all public identifiers.
pub open spec fn id_prefix() -> Seq<char> {
    seq!['I', 'D']
}

/// The public identifier with sequence number `n`.
pub open spec fn id_text(n: nat) -> Seq<char> {
    id_prefix() + decimal(n)
}

proof fn lemma_digit_char_injective(a: nat, b: nat)
    requires
        a < 10,
        b < 10,
        digit_char(a) == digit_char(b),
    ensures
        a == b,
{
}

proof fn lemma_decimal_len(n: nat)
    ensures
        decimal(n).len() >= 1,
        n >= 10 ==> decimal(n).len() >= 2,
    decreases n,
{
    if n >= 10 {
        lemma_decimal_len(n / 10);
    }
}

/// Distinct numbers have distinct decimal texts.
pub proof fn lemma_decimal_injective(a: nat, b: nat)
    requires
        decimal(a) == decimal(b),
    ensures
        a == b,
    decreases a,
{
    lemma_decimal_len(a);
    lemma_decimal_len(b);
    if a < 10 && b < 10 {
        assert(decimal(a)[0] == digit_char(a));
        assert(decimal(b)[0] == digit_char(b));
        lemma_digit_char_injective(a, b);
    } else if a >= 10 && b >= 10 {
        let da = decimal(a);
        let db = decimal(b);
        assert(da.last() == digit_char(a % 10));
        assert(db.last() == digit_char(b % 10));
        lemma_digit_char_injective(a % 10, b % 10);
        assert(da.drop_last() =~= decimal(a / 10));
        assert(db.drop_last() =~= decimal(b / 10));
        lemma_decimal_injective(a / 10, b / 10);
    }
}

/// Distinct sequence numbers give distinct public identifiers.
pub proof fn lemma_id_text_injective(a: nat, b: nat)
    requires
        id_text(a) == id_text(b),
    ensures
        a == b,
{
    assert(decimal(a) =~= id_text(a).subrange(2, id_text(a).len() as int));
    assert(decimal(b) =~= id_text(b).subrange(2, id_text(b).len() as int));
    lemma_decimal_injective(a, b);
}

/// Relies on `format!` with std's `Display` for `u64`: the number is written
/// in decimal, without sign or leading zeros, after the literal prefix.
#[verifier::external_body]
pub(crate) fn format_id(n: u64) -> (r: String)
    ensures
        r@ == id_text(n as nat),
{
    format!("ID{}", n)
}


/// A separator inside an account id.
pub open spec fn is_separator(c: char) -> bool {
    c == '-' || c == '_' || c == '.'
}

/// A character that may stand in an account id.
pub open spec fn is_account_char(c: char) -> bool {
    ('a' <= c && c <= 'z') || ('0' <= c && c <= '9') || is_separator(c)
}

/// A network account id: 2 to 64 lower-case letters, digits and separators,
/// neither starting nor ending with a separator, with no two separators in a
/// row.
pub open spec fn valid_account_id(s: Seq<char>) -> bool {
    &&& 2 <= s.len() <= 64
    &&& forall|i: int| 0 <= i < s.len() ==> #[trigger] is_account_char(s[i])
    &&& !is_separator(s[0])
    &&& !is_separator(s.last())
    &&& forall|i: int|
        0 <= i < s.len() - 1 ==> !(#[trigger] is_separator(s[i]) && is_separator(s[i + 1]))
}

/// Relies on near_sdk's `FromStr` for `AccountId`: it accepts exactly the
/// valid account ids, and the id keeps the text it was parsed from.
#[verifier::external_body]
pub(crate) fn parse_account_id(raw: &str) -> (r: Option<String>)
    ensures
        r is Some <==> valid_account_id(raw@),
        r matches Some(a) ==> a@ == raw@,
{
    raw.parse::<near_sdk::AccountId>().ok().map(String::from)
}

/// Suffix of an alias left to an outside resolver.
pub open spec fn alias_suffix() -> Seq<char> {
    seq!['.', 't', 'g']
}

/// Suffix of a main-network account.
pub open spec fn mainnet_suffix() -> Seq<char> {
    seq!['.', 'n', 'e', 'a', 'r']
}

/// Suffix of a test-network account.
pub open spec fn testnet_suffix() -> Seq<char> {
    seq!['.', 't', 'e', 's', 't', 'n', 'e', 't']
}

/// What a referral input names, judged by its shape alone.
#[derive(PartialEq, Eq, Structural, Clone, Copy, Debug)]
pub enum ReferralKind {
    /// A public identifier of this ledger.
    PublicId,
    /// An alias for an outside resolver, which is not available.
    ExternalAlias,
    /// A network account id.
    NetworkAccount,
    /// Anything else.
    Unrecognized,
}

/// The classification of a referral input.
pub open spec fn referral_kind(raw: Seq<char>) -> ReferralKind {
    if id_prefix().is_prefix_of(raw) {
        ReferralKind::PublicId
    } else if alias_suffix().is_suffix_of(raw) {
        ReferralKind::ExternalAlias
    } else if mainnet_suffix().is_suffix_of(raw) || testnet_suffix().is_suffix_of(raw) {
        ReferralKind::NetworkAccount
    } else {
        ReferralKind::Unrecognized
    }
}

/// Whether `s` ends with (`at_end`) or starts with `part`.
fn has_affix(s: &str, part: &str, at_end: bool) -> (r: bool)
    ensures
        at_end ==> r == part@.is_suffix_of(s@),
        !at_end ==> r == part@.is_prefix_of(s@),
{
    let n = s.unicode_len();
    let m = part.unicode_len();
    if m > n {
        return false;
    }
    let offset: usize = if at_end { n - m } else { 0 };
    let mut i: usize = 0;
    while i < m
        invariant
            m == part@.len(),
            n == s@.len(),
            m <= n,
            offset + m <= n,
            at_end ==> offset == n - m,
            !at_end ==> offset == 0,
            i <= m,
            forall|j: int| 0 <= j < i ==> part@[j] == s@[offset + j],
        decreases m - i,
    {
        if part.get_char(i) != s.get_char(offset + i) {
            assert(part@[i as int] != s@[offset + i]);
            return false;
        }
        i += 1;
    }
    assert(part@ =~= s@.subrange(offset as int, offset + m));
    true
}

/// Sorts a referral input by its shape.
pub fn classify_referral(raw: &str) -> (r: ReferralKind)
    ensures
        r == referral_kind(raw@),
{
    proof {
        reveal_strlit("ID");
        reveal_strlit(".tg");
        reveal_strlit(".near");
        reveal_strlit(".testnet");
        assert("ID"@ =~= id_prefix());
        assert(".tg"@ =~= alias_suffix());
        assert(".near"@ =~= mainnet_suffix());
        assert(".testnet"@ =~= testnet_suffix());
    }
    if has_affix(raw, "ID", false) {
        ReferralKind::PublicId
    } else if has_affix(raw, ".tg", true) {
        ReferralKind::ExternalAlias
    } else if has_affix(raw, ".near", true) || has_affix(raw, ".testnet", true) {
        ReferralKind::NetworkAccount
    } else {
        ReferralKind::Unrecognized
    }
}

} // verus!
