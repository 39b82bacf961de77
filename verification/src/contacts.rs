use vstd::prelude::*;

use crate::text::{blank, chars_contain, contains_seq, is_blank, is_suffix_of, lower_of, lowercase,
    chars_end_with, to_chars};
use crate::util::digits_of;
use crate::util::normalize_phone;

verus! {

/// The bit pattern of the similarity cutoff 0.82: since similarity scores are
/// nonnegative, comparing bit patterns compares the scores themselves, and a
/// score qualifies for the fuzzy stage only strictly above this cutoff.
pub const SIMILARITY_THRESHOLD_BITS: u64 = 4_605_561_122_934_164_029;

/// One entry of the loaded contact list.
pub struct Contact {
    pub name: String,
    pub phone: String,
    pub relationship_type: Option<String>,
    pub notes: Option<String>,
}

/// A fresh contact holding the same values.
pub fn contact_dup(c: &Contact) -> (r: Contact)
    ensures
        r == *c,
{
    Contact {
        name: c.name.clone(),
        phone: c.phone.clone(),
        relationship_type: match &c.relationship_type {
            Some(s) => Some(s.clone()),
            None => None,
        },
        notes: match &c.notes {
            Some(s) => Some(s.clone()),
            None => None,
        },
    }
}

/// The bit pattern of the Jaro-Winkler similarity of two character sequences;
/// a function of the two sequences alone. The score lies in the closed
/// interval [0, 1], where bit patterns order exactly as the scores do, so all
/// comparisons of scores are comparisons of these integers.
pub uninterp spec fn sim_bits(a: Seq<char>, b: Seq<char>) -> nat;

/// Relies on strsim::jaro_winkler, whose score depends on the two strings
/// alone and is nonnegative, and on f64::to_bits, which is order-preserving
/// on nonnegative values.
#[verifier::external_body]
fn jaro_winkler_bits(a: &str, b: &str) -> (r: u64)
    ensures
        r == sim_bits(a@, b@),
{
    strsim::jaro_winkler(a, b).to_bits()
}

/// The contact's lower-cased name equals the lower-cased query.
pub open spec fn exact_match(c: Contact, lq: Seq<char>) -> bool {
    lower_of(c.name@) == lq
}

/// The lower-cased query occurs inside the contact's lower-cased name.
pub open spec fn substr_match(c: Contact, lq: Seq<char>) -> bool {
    contains_seq(lower_of(c.name@), lq)
}

/// The first index at or after `i` whose contact matches exactly.
pub open spec fn first_exact_from(cs: Seq<Contact>, lq: Seq<char>, i: int) -> Option<int>
    decreases cs.len() - i,
{
    if i < 0 || i >= cs.len() {
        None
    } else if exact_match(cs[i], lq) {
        Some(i)
    } else {
        first_exact_from(cs, lq, i + 1)
    }
}

/// The first index at or after `i` whose contact matches by substring.
pub open spec fn first_substr_from(cs: Seq<Contact>, lq: Seq<char>, i: int) -> Option<int>
    decreases cs.len() - i,
{
    if i < 0 || i >= cs.len() {
        None
    } else if substr_match(cs[i], lq) {
        Some(i)
    } else {
        first_substr_from(cs, lq, i + 1)
    }
}

/// The index holding the running best similarity among the first `n` contacts:
/// only scores strictly above the threshold qualify, and a later contact
/// replaces the best only with a strictly greater score.
pub open spec fn best_sim_upto(cs: Seq<Contact>, lq: Seq<char>, n: int) -> Option<int>
    decreases n,
{
    if n <= 0 || n > cs.len() {
        None
    } else {
        let prev = best_sim_upto(cs, lq, n - 1);
        let s = sim_bits(lower_of(cs[n - 1].name@), lq);
        if s > SIMILARITY_THRESHOLD_BITS {
            match prev {
                None => Some(n - 1),
                Some(j) => if s > sim_bits(lower_of(cs[j].name@), lq) {
                    Some(n - 1)
                } else {
                    Some(j)
                },
            }
        } else {
            prev
        }
    }
}

/// What the resolution cascade returns for a query: nothing for a blank query,
/// else the first exact match, else the first substring match, else the best
/// contact scoring strictly above the similarity threshold.
pub open spec fn resolve_spec(cs: Seq<Contact>, q: Seq<char>) -> Option<Contact> {
    if blank(q) {
        None
    } else {
        let lq = lower_of(q);
        match first_exact_from(cs, lq, 0) {
            Some(i) => Some(cs[i]),
            None => match first_substr_from(cs, lq, 0) {
                Some(i) => Some(cs[i]),
                None => match best_sim_upto(cs, lq, cs.len() as int) {
                    Some(i) => Some(cs[i]),
                    None => None,
                },
            },
        }
    }
}

/// Two normalized phone values match when both are non-empty and one is a
/// suffix of the other; an empty normalized value never matches anything.
pub open spec fn phone_match(a: Seq<char>, b: Seq<char>) -> bool {
    a.len() > 0 && b.len() > 0 && (is_suffix_of(b, a) || is_suffix_of(a, b))
}

/// The first index at or after `i` whose normalized phone matches the needle.
pub open spec fn first_phone_from(cs: Seq<Contact>, needle: Seq<char>, i: int) -> Option<int>
    decreases cs.len() - i,
{
    if i < 0 || i >= cs.len() {
        None
    } else if phone_match(digits_of(cs[i].phone@), needle) {
        Some(i)
    } else {
        first_phone_from(cs, needle, i + 1)
    }
}

/// The in-memory contact list, in load order.
pub struct ContactsManager {
    pub contacts: Vec<Contact>,
}

impl ContactsManager {
    /// Wraps an already loaded contact list.
    pub fn new(contacts: Vec<Contact>) -> (r: ContactsManager)
        ensures
            r.contacts@ == contacts@,
    {
        ContactsManager { contacts }
    }

    /// Resolves a free-text query through the three-stage cascade.
    pub fn resolve(&self, query: &str) -> (r: Option<Contact>)
        ensures
            r == resolve_spec(self.contacts@, query@),
    {
        if is_blank(query) {
            return None;
        }
        let lower = lowercase(query);
        let ghost lq = lower_of(query@);
        let ghost cs = self.contacts@;

        let mut i: usize = 0;
        while i < self.contacts.len()
            invariant
                cs == self.contacts@,
                !blank(query@),
                lq == lower_of(query@),
                lower@ == lq,
                i <= cs.len(),
                first_exact_from(cs, lq, 0) == first_exact_from(cs, lq, i as int),
                forall|k: int| 0 <= k < i ==> !exact_match(cs[k], lq),
            decreases self.contacts.len() - i,
        {
            let cname = lowercase(self.contacts[i].name.as_str());
            if cname == lower {
                return Some(contact_dup(&self.contacts[i]));
            }
            i = i + 1;
        }

        let query_chars = to_chars(lower.as_str());
        let mut i: usize = 0;
        while i < self.contacts.len()
            invariant
                cs == self.contacts@,
                !blank(query@),
                lq == lower_of(query@),
                lower@ == lq,
                query_chars@ == lq,
                i <= cs.len(),
                first_exact_from(cs, lq, 0) is None,
                first_substr_from(cs, lq, 0) == first_substr_from(cs, lq, i as int),
                forall|k: int| 0 <= k < i ==> !substr_match(cs[k], lq),
            decreases self.contacts.len() - i,
        {
            let cname = lowercase(self.contacts[i].name.as_str());
            let name_chars = to_chars(cname.as_str());
            if chars_contain(&name_chars, &query_chars) {
                return Some(contact_dup(&self.contacts[i]));
            }
            i = i + 1;
        }

        let mut best_idx: usize = 0;
        let mut best_score: u64 = 0;
        let mut have_best: bool = false;
        let mut i: usize = 0;
        while i < self.contacts.len()
            invariant
                cs == self.contacts@,
                !blank(query@),
                lq == lower_of(query@),
                lower@ == lq,
                i <= cs.len(),
                !have_best ==> best_sim_upto(cs, lq, i as int) is None,
                have_best ==> {
                    &&& best_sim_upto(cs, lq, i as int) == Some(best_idx as int)
                    &&& best_idx < i
                    &&& best_score == sim_bits(lower_of(cs[best_idx as int].name@), lq)
                },
            decreases self.contacts.len() - i,
        {
            let cname = lowercase(self.contacts[i].name.as_str());
            let score = jaro_winkler_bits(cname.as_str(), lower.as_str());
            if score > SIMILARITY_THRESHOLD_BITS {
                if !have_best || score > best_score {
                    best_idx = i;
                    best_score = score;
                    have_best = true;
                }
            }
            i = i + 1;
        }
        if have_best {
            Some(contact_dup(&self.contacts[best_idx]))
        } else {
            None
        }
    }

    /// Returns the first contact whose normalized phone matches the normalized
    /// input under the suffix rule; no fuzzy fallback.
    pub fn get_by_phone(&self, phone: &str) -> (r: Option<Contact>)
        ensures
            r == match first_phone_from(self.contacts@, digits_of(phone@), 0) {
                Some(i) => Some(self.contacts@[i]),
                None => None::<Contact>,
            },
    {
        let needle = normalize_phone(phone);
        let needle_chars = to_chars(needle.as_str());
        let ghost cs = self.contacts@;
        let ghost nd = digits_of(phone@);
        let mut i: usize = 0;
        while i < self.contacts.len()
            invariant
                cs == self.contacts@,
                nd == digits_of(phone@),
                needle_chars@ == nd,
                i <= cs.len(),
                first_phone_from(cs, nd, 0) == first_phone_from(cs, nd, i as int),
                forall|k: int| 0 <= k < i ==> !phone_match(digits_of(cs[k].phone@), nd),
            decreases self.contacts.len() - i,
        {
            let normalized = normalize_phone(self.contacts[i].phone.as_str());
            let norm_chars = to_chars(normalized.as_str());
            let matched = if norm_chars.len() > 0 && needle_chars.len() > 0 {
                chars_end_with(&norm_chars, &needle_chars) || chars_end_with(
                    &needle_chars,
                    &norm_chars,
                )
            } else {
                false
            };
            if matched {
                return Some(contact_dup(&self.contacts[i]));
            }
            i = i + 1;
        }
        None
    }

    /// The whole loaded list, in order.
    pub fn all(&self) -> (r: &Vec<Contact>)
        ensures
            r@ == self.contacts@,
    {
        &self.contacts
    }
}

/// The error kinds surfaced to callers.
#[derive(Debug)]
pub enum GatewayError {
    /// The message store or the contacts source cannot be opened or read.
    ResourceUnavailable { path: String },
    /// A contact query resolved to no candidate; carries the query text.
    NotFound { query: String },
    /// A read against the store failed; carries what was attempted.
    QueryFailure { context: String },
    /// The messaging transport exited with failure; carries its status.
    TransportFailure { status: String },
}

/// Resolves a query and demands a result: exactly the queries the cascade
/// resolves yield a contact, and every other query yields the not-found error
/// carrying the query text.
pub fn require_contact(contacts: &ContactsManager, query: &str) -> (r: Result<
    Contact,
    GatewayError,
>)
    ensures
        r is Ok <==> resolve_spec(contacts.contacts@, query@) is Some,
        r is Ok ==> Some(r->Ok_0) == resolve_spec(contacts.contacts@, query@),
        r is Err ==> (match r->Err_0 {
            GatewayError::NotFound { query: q } => q@ == query@,
            _ => false,
        }),
{
    match contacts.resolve(query) {
        Some(c) => Ok(c),
        None => Err(GatewayError::NotFound { query: query.to_owned() }),
    }
}

// ----- Laws of the resolution cascade -----

/// A blank (empty or whitespace-only) query resolves to nothing, whatever the
/// contact list holds.
pub proof fn lemma_blank_query_resolves_to_none(cs: Seq<Contact>, q: Seq<char>)
    requires
        blank(q),
    ensures
        resolve_spec(cs, q) is None,
{
}

/// The first exact match from `j` onward is at `i` when `i` matches and
/// nothing between matches.
proof fn lemma_first_exact_is(cs: Seq<Contact>, lq: Seq<char>, j: int, i: int)
    requires
        0 <= j <= i < cs.len(),
        exact_match(cs[i], lq),
        forall|k: int| j <= k < i ==> !exact_match(cs[k], lq),
    ensures
        first_exact_from(cs, lq, j) == Some(i),
    decreases i - j,
{
    if j < i {
        lemma_first_exact_is(cs, lq, j + 1, i);
    }
}

/// A query that exactly equals a contact's name (case-insensitively) resolves
/// to the first such contact, whatever later contacts merely contain.
pub proof fn lemma_exact_match_wins(cs: Seq<Contact>, q: Seq<char>, i: int)
    requires
        !blank(q),
        0 <= i < cs.len(),
        exact_match(cs[i], lower_of(q)),
        forall|k: int| 0 <= k < i ==> !exact_match(cs[k], lower_of(q)),
    ensures
        resolve_spec(cs, q) == Some(cs[i]),
{
    lemma_first_exact_is(cs, lower_of(q), 0, i);
}

/// No exact match anywhere means the exact stage yields nothing.
proof fn lemma_no_exact(cs: Seq<Contact>, lq: Seq<char>, j: int)
    requires
        0 <= j,
        forall|k: int| 0 <= k < cs.len() ==> !exact_match(cs[k], lq),
    ensures
        first_exact_from(cs, lq, j) is None,
    decreases cs.len() - j,
{
    if j < cs.len() {
        lemma_no_exact(cs, lq, j + 1);
    }
}

/// No substring match anywhere means the substring stage yields nothing.
proof fn lemma_no_substr(cs: Seq<Contact>, lq: Seq<char>, j: int)
    requires
        0 <= j,
        forall|k: int| 0 <= k < cs.len() ==> !substr_match(cs[k], lq),
    ensures
        first_substr_from(cs, lq, j) is None,
    decreases cs.len() - j,
{
    if j < cs.len() {
        lemma_no_substr(cs, lq, j + 1);
    }
}

/// When exactly one contact scores above the threshold, the similarity stage
/// settles on it.
proof fn lemma_best_sim_single(cs: Seq<Contact>, lq: Seq<char>, i: int, n: int)
    requires
        0 <= i < cs.len(),
        0 <= n <= cs.len(),
        sim_bits(lower_of(cs[i].name@), lq) > SIMILARITY_THRESHOLD_BITS,
        forall|k: int|
            0 <= k < cs.len() && k != i ==> sim_bits(lower_of(cs[k].name@), lq)
                <= SIMILARITY_THRESHOLD_BITS,
    ensures
        n <= i ==> best_sim_upto(cs, lq, n) is None,
        n > i ==> best_sim_upto(cs, lq, n) == Some(i),
    decreases n,
{
    if n > 0 {
        lemma_best_sim_single(cs, lq, i, n - 1);
    }
}

/// When nothing scores above the threshold the similarity stage yields nothing.
proof fn lemma_best_sim_none(cs: Seq<Contact>, lq: Seq<char>, n: int)
    requires
        0 <= n <= cs.len(),
        forall|k: int|
            0 <= k < cs.len() ==> sim_bits(lower_of(cs[k].name@), lq)
                <= SIMILARITY_THRESHOLD_BITS,
    ensures
        best_sim_upto(cs, lq, n) is None,
    decreases n,
{
    if n > 0 {
        lemma_best_sim_none(cs, lq, n - 1);
    }
}

/// A non-blank query that matches no contact exactly or by substring resolves
/// to the single contact scoring strictly above the similarity threshold.
pub proof fn lemma_similarity_single_winner(cs: Seq<Contact>, q: Seq<char>, i: int)
    requires
        !blank(q),
        0 <= i < cs.len(),
        forall|k: int| 0 <= k < cs.len() ==> !exact_match(cs[k], lower_of(q)),
        forall|k: int| 0 <= k < cs.len() ==> !substr_match(cs[k], lower_of(q)),
        sim_bits(lower_of(cs[i].name@), lower_of(q)) > SIMILARITY_THRESHOLD_BITS,
        forall|k: int|
            0 <= k < cs.len() && k != i ==> sim_bits(lower_of(cs[k].name@), lower_of(q))
                <= SIMILARITY_THRESHOLD_BITS,
    ensures
        resolve_spec(cs, q) == Some(cs[i]),
{
    lemma_no_exact(cs, lower_of(q), 0);
    lemma_no_substr(cs, lower_of(q), 0);
    lemma_best_sim_single(cs, lower_of(q), i, cs.len() as int);
}

/// A non-blank query that matches no contact exactly or by substring and
/// scores at or below the threshold against every contact resolves to nothing.
pub proof fn lemma_similarity_below_threshold(cs: Seq<Contact>, q: Seq<char>)
    requires
        !blank(q),
        forall|k: int| 0 <= k < cs.len() ==> !exact_match(cs[k], lower_of(q)),
        forall|k: int| 0 <= k < cs.len() ==> !substr_match(cs[k], lower_of(q)),
        forall|k: int|
            0 <= k < cs.len() ==> sim_bits(lower_of(cs[k].name@), lower_of(q))
                <= SIMILARITY_THRESHOLD_BITS,
    ensures
        resolve_spec(cs, q) is None,
{
    lemma_no_exact(cs, lower_of(q), 0);
    lemma_no_substr(cs, lower_of(q), 0);
    lemma_best_sim_none(cs, lower_of(q), cs.len() as int);
}

/// The normalized-phone match rule is symmetric.
pub proof fn lemma_phone_match_symmetric(a: Seq<char>, b: Seq<char>)
    ensures
        phone_match(a, b) == phone_match(b, a),
{
}

} // verus!
