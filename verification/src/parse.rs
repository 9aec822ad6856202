//! The line grammar: octets, labels, host names, dotted-quad addresses, and
//! the two line formats built from them (bare domain lines and
//! "address + hostname" lines).
//!
//! Each recognizer consumes the longest valid prefix of its input and is
//! specified against a spec-level model of that greedy scan.

use vstd::prelude::*;
use vstd::string::*;

verus! {

// ---------------------------------------------------------------------------
// Character classes
// ---------------------------------------------------------------------------

/// An ASCII decimal digit.
pub open spec fn is_digit_char(c: char) -> bool {
    48 <= c as u32 <= 57
}

/// A character allowed inside a host-name label: ASCII alphanumeric, `-` or `_`.
pub open spec fn is_label_char(c: char) -> bool {
    is_digit_char(c) || (65 <= c as u32 <= 90) || (97 <= c as u32 <= 122) || c as u32 == 45
        || c as u32 == 95
}

/// A whitespace character separating the address and the host name.
pub open spec fn is_space_char(c: char) -> bool {
    c as u32 == 32 || c as u32 == 9 || c as u32 == 13 || c as u32 == 10
}

pub open spec fn digit_pred() -> spec_fn(char) -> bool {
    |c: char| is_digit_char(c)
}

pub open spec fn label_pred() -> spec_fn(char) -> bool {
    |c: char| is_label_char(c)
}

pub open spec fn space_pred() -> spec_fn(char) -> bool {
    |c: char| is_space_char(c)
}

/// Whether `c` is an ASCII decimal digit.
pub fn is_digit(c: char) -> (r: bool)
    ensures
        r == is_digit_char(c),
{
    let u = c as u32;
    48 <= u && u <= 57
}

/// Whether the character at index `i` of `s` is an ASCII decimal digit.
fn digit_char_at(s: &str, i: usize) -> (r: bool)
    requires
        i < s@.len(),
    ensures
        r == is_digit_char(s@[i as int]),
{
    is_digit(s.get_char(i))
}

/// Whether the character at index `i` of `s` may appear in a label.
fn label_char_at(s: &str, i: usize) -> (r: bool)
    requires
        i < s@.len(),
    ensures
        r == is_label_char(s@[i as int]),
{
    is_label_char_exec(s.get_char(i))
}

/// Whether the character at index `i` of `s` is whitespace.
fn space_char_at(s: &str, i: usize) -> (r: bool)
    requires
        i < s@.len(),
    ensures
        r == is_space_char(s@[i as int]),
{
    is_space_char_exec(s.get_char(i))
}

fn is_label_char_exec(c: char) -> (r: bool)
    ensures
        r == is_label_char(c),
{
    let u = c as u32;
    (48 <= u && u <= 57) || (65 <= u && u <= 90) || (97 <= u && u <= 122) || u == 45 || u == 95
}

fn is_space_char_exec(c: char) -> (r: bool)
    ensures
        r == is_space_char(c),
{
    let u = c as u32;
    u == 32 || u == 9 || u == 13 || u == 10
}

// ---------------------------------------------------------------------------
// Maximal prefix runs
// ---------------------------------------------------------------------------

/// Length of the longest prefix of `t` whose characters all satisfy `p`.
pub open spec fn run_len(t: Seq<char>, p: spec_fn(char) -> bool) -> nat
    decreases t.len(),
{
    if t.len() == 0 || !p(t[0]) {
        0
    } else {
        (1 + run_len(t.skip(1), p)) as nat
    }
}

/// If the first `k` characters satisfy `p` and the run stops there, the run
/// length is exactly `k`.
pub proof fn lemma_run_len_exact(t: Seq<char>, p: spec_fn(char) -> bool, k: int)
    requires
        0 <= k <= t.len(),
        forall|j: int| 0 <= j < k ==> p(t[j]),
        k < t.len() ==> !p(t[k]),
    ensures
        run_len(t, p) == k,
    decreases t.len(),
{
    if k == 0 {
    } else {
        assert(p(t[0]));
        lemma_run_len_exact(t.skip(1), p, k - 1);
    }
}

/// If the first `k` characters satisfy `p`, the run is at least `k` long.
pub proof fn lemma_run_len_at_least(t: Seq<char>, p: spec_fn(char) -> bool, k: int)
    requires
        0 <= k <= t.len(),
        forall|j: int| 0 <= j < k ==> p(t[j]),
    ensures
        run_len(t, p) >= k,
    decreases t.len(),
{
    if k > 0 {
        assert(p(t[0]));
        lemma_run_len_at_least(t.skip(1), p, k - 1);
    }
}

// ---------------------------------------------------------------------------
// Octets
// ---------------------------------------------------------------------------

/// Numeric value of a digit string.
pub open spec fn digits_val(t: Seq<char>) -> int
    decreases t.len(),
{
    if t.len() == 0 {
        0
    } else {
        10 * digits_val(t.drop_last()) + (t.last() as u32 - 48)
    }
}

/// The octet recognizer: up to three leading digits are taken (greedily), and
/// the take succeeds when there is at least one digit and the value of the
/// taken digits is at most 255. Returns the number of characters consumed.
pub open spec fn octet_len(t: Seq<char>) -> Option<nat> {
    let d = run_len(t, digit_pred());
    let k: nat = if d > 3 {
        3
    } else {
        d
    };
    if 1 <= k && digits_val(t.take(k as int)) <= 255 {
        Some(k)
    } else {
        None
    }
}

/// Scans an octet at position `from` of `s`; on success returns the number of
/// characters consumed.
pub(crate) fn scan_octet(s: &str, from: usize) -> (r: Option<usize>)
    requires
        from <= s@.len(),
    ensures
        match r {
            Some(k) => octet_len(s@.skip(from as int)) == Some(k as nat) && 1 <= k <= 3 && from + k
                <= s@.len(),
            None => octet_len(s@.skip(from as int)) is None,
        },
{
    let ghost t = s@.skip(from as int);
    let len = s.unicode_len();
    let mut i: usize = 0;
    let mut val: u32 = 0;
    while i < 3 && from + i < len && digit_char_at(s, from + i)
        invariant
            i <= 3,
            from + i <= len,
            forall|j: int| 0 <= j < i ==> is_digit_char(t[j]),
            val == digits_val(t.take(i as int)),
            i == 0 ==> val == 0,
            i == 1 ==> val <= 9,
            i == 2 ==> val <= 99,
            i == 3 ==> val <= 999,
        decreases 3 - i,
    {
        let c = s.get_char(from + i);
        assert(c == t[i as int]);
        let u = c as u32;
        proof {
            assert(t.take(i + 1).drop_last() =~= t.take(i as int));
            assert(t.take(i + 1).last() == t[i as int]);
        }
        val = 10 * val + (u - 48);
        i = i + 1;
    }
    proof {
        if i == 3 {
            lemma_run_len_at_least(t, digit_pred(), 3);
        } else {
            lemma_run_len_exact(t, digit_pred(), i as int);
        }
    }
    if i == 0 {
        None
    } else if val <= 255 {
        Some(i)
    } else {
        None
    }
}

// ---------------------------------------------------------------------------
// Labels and host names
// ---------------------------------------------------------------------------

/// The label recognizer: the maximal run of label characters is taken, and
/// the take succeeds only when that whole run is 1 to 63 characters long.
/// Returns the number of characters consumed.
pub open spec fn label_len(t: Seq<char>) -> Option<nat> {
    let r = run_len(t, label_pred());
    if 1 <= r <= 63 {
        Some(r)
    } else {
        None
    }
}

/// Scans a label at position `from` of `s`.
pub(crate) fn scan_label(s: &str, from: usize) -> (r: Option<usize>)
    requires
        from <= s@.len(),
    ensures
        match r {
            Some(l) => label_len(s@.skip(from as int)) == Some(l as nat) && 1 <= l <= 63 && from + l
                <= s@.len(),
            None => label_len(s@.skip(from as int)) is None,
        },
{
    let ghost t = s@.skip(from as int);
    let len = s.unicode_len();
    let mut i: usize = 0;
    while i < 64 && from + i < len && label_char_at(s, from + i)
        invariant
            i <= 64,
            from + i <= len,
            forall|j: int| 0 <= j < i ==> is_label_char(t[j]),
        decreases 64 - i,
    {
        i = i + 1;
    }
    if i == 64 {
        proof {
            lemma_run_len_at_least(t, label_pred(), 64);
        }
        None
    } else {
        proof {
            lemma_run_len_exact(t, label_pred(), i as int);
        }
        if i == 0 {
            None
        } else {
            Some(i)
        }
    }
}

/// Total length consumed by the greedy repetition of (label ".") pairs at the
/// start of `t`. Each step requires a full valid label directly followed by a
/// dot; the first step that fails ends the repetition.
pub open spec fn pairs_len(t: Seq<char>) -> nat
    decreases t.len(),
{
    match label_len(t) {
        Some(l) => if l < t.len() && t[l as int] == '.' {
            (l + 1 + pairs_len(t.skip(l as int + 1))) as nat
        } else {
            0
        },
        None => 0,
    }
}

/// The host-name recognizer: one or more (label ".") pairs followed by one
/// final label, so at least two labels in all. Returns the number of
/// characters consumed.
pub open spec fn hostname_len(t: Seq<char>) -> Option<nat> {
    let p = pairs_len(t);
    if p == 0 {
        None
    } else {
        match label_len(t.skip(p as int)) {
            Some(l) => Some((p + l) as nat),
            None => None,
        }
    }
}

/// Consumes the greedy repetition of (label ".") pairs starting at `from`,
/// returning the position where the repetition stops.
pub(crate) fn scan_pairs(s: &str, from: usize) -> (pos: usize)
    requires
        from <= s@.len(),
    ensures
        from <= pos <= s@.len(),
        pairs_len(s@.skip(from as int)) == pos - from,
        pairs_len(s@.skip(pos as int)) == 0,
    decreases s@.len() - from,
{
    let ghost u = s@.skip(from as int);
    let len = s.unicode_len();
    match scan_label(s, from) {
        Some(l) => {
            if from + l < len && s.get_char(from + l) == '.' {
                proof {
                    assert(u[l as int] == s@[from + l]);
                    assert(u.skip(l as int + 1) =~= s@.skip(from + l + 1));
                }
                scan_pairs(s, from + l + 1)
            } else {
                proof {
                    if l < u.len() {
                        assert(u[l as int] == s@[from + l]);
                    }
                }
                from
            }
        },
        None => from,
    }
}

/// Scans a host name at position `from` of `s`.
pub(crate) fn scan_hostname(s: &str, from: usize) -> (r: Option<usize>)
    requires
        from <= s@.len(),
    ensures
        match r {
            Some(k) => hostname_len(s@.skip(from as int)) == Some(k as nat) && 1 <= k && from + k
                <= s@.len(),
            None => hostname_len(s@.skip(from as int)) is None,
        },
{
    let ghost t = s@.skip(from as int);
    // establishes that the character count fits in usize
    let _len = s.unicode_len();
    let pos = scan_pairs(s, from);
    if pos == from {
        None
    } else {
        proof {
            assert(t.skip((pos - from) as int) =~= s@.skip(pos as int));
        }
        match scan_label(s, pos) {
            Some(l) => Some(pos - from + l),
            None => None,
        }
    }
}

/// Recognizes a host name at the start of `input`. On success returns the
/// pair (remainder, consumed), in that order.
pub fn parse_hostname<'a>(input: &'a str) -> (r: Option<(&'a str, &'a str)>)
    ensures
        match hostname_len(input@) {
            Some(k) => r is Some && r.unwrap().0@ == input@.skip(k as int) && r.unwrap().1@
                == input@.take(k as int),
            None => r is None,
        },
{
    proof {
        assert(input@.skip(0) =~= input@);
    }
    match scan_hostname(input, 0) {
        Some(k) => {
            let len = input.unicode_len();
            let consumed = input.substring_char(0, k);
            let rest = input.substring_char(k, len);
            Some((rest, consumed))
        },
        None => None,
    }
}

/// Recognizes an octet at the start of `input`. On success returns the pair
/// (remainder, consumed), in that order.
pub fn parse_ipv4_octet<'a>(input: &'a str) -> (r: Option<(&'a str, &'a str)>)
    ensures
        match octet_len(input@) {
            Some(k) => r is Some && r.unwrap().0@ == input@.skip(k as int) && r.unwrap().1@
                == input@.take(k as int),
            None => r is None,
        },
{
    proof {
        assert(input@.skip(0) =~= input@);
    }
    match scan_octet(input, 0) {
        Some(k) => {
            let len = input.unicode_len();
            let consumed = input.substring_char(0, k);
            let rest = input.substring_char(k, len);
            Some((rest, consumed))
        },
        None => None,
    }
}

// ---------------------------------------------------------------------------
// Dotted-quad addresses
// ---------------------------------------------------------------------------

/// Total length consumed by the greedy repetition of (octet ".") pairs at the
/// start of `t`.
pub open spec fn addr_pairs_len(t: Seq<char>) -> nat
    decreases t.len(),
{
    match octet_len(t) {
        Some(k) => if k < t.len() && t[k as int] == '.' {
            (k + 1 + addr_pairs_len(t.skip(k as int + 1))) as nat
        } else {
            0
        },
        None => 0,
    }
}

/// Number of (octet ".") pairs the greedy repetition takes at the start of `t`.
pub open spec fn addr_pairs_count(t: Seq<char>) -> nat
    decreases t.len(),
{
    match octet_len(t) {
        Some(k) => if k < t.len() && t[k as int] == '.' {
            (1 + addr_pairs_count(t.skip(k as int + 1))) as nat
        } else {
            0
        },
        None => 0,
    }
}

/// The address recognizer: up to three (octet ".") pairs followed by one
/// trailing octet. The repetition is greedy; if it takes more than three
/// pairs the whole production fails rather than backtracking. Note a bare
/// 1-3 digit number is accepted as a complete address by this grammar.
pub open spec fn addr_len(t: Seq<char>) -> Option<nat> {
    if addr_pairs_count(t) <= 3 {
        let p = addr_pairs_len(t);
        match octet_len(t.skip(p as int)) {
            Some(k) => Some((p + k) as nat),
            None => None,
        }
    } else {
        None
    }
}

/// Consumes the greedy repetition of (octet ".") pairs starting at `from`,
/// returning the stop position and the number of pairs taken.
pub(crate) fn scan_addr_pairs(s: &str, from: usize) -> (r: (usize, usize))
    requires
        from <= s@.len(),
    ensures
        from <= r.0 <= s@.len(),
        r.1 <= r.0 - from,
        addr_pairs_len(s@.skip(from as int)) == r.0 - from,
        addr_pairs_count(s@.skip(from as int)) == r.1,
        addr_pairs_len(s@.skip(r.0 as int)) == 0,
    decreases s@.len() - from,
{
    let ghost u = s@.skip(from as int);
    let len = s.unicode_len();
    match scan_octet(s, from) {
        Some(k) => {
            if from + k < len && s.get_char(from + k) == '.' {
                proof {
                    assert(u[k as int] == s@[from + k]);
                    assert(u.skip(k as int + 1) =~= s@.skip(from + k + 1));
                }
                let (pos, cnt) = scan_addr_pairs(s, from + k + 1);
                (pos, cnt + 1)
            } else {
                proof {
                    if k < u.len() {
                        assert(u[k as int] == s@[from + k]);
                    }
                }
                (from, 0)
            }
        },
        None => (from, 0),
    }
}

/// Scans a dotted-quad address at position `from` of `s`.
pub(crate) fn scan_addr(s: &str, from: usize) -> (r: Option<usize>)
    requires
        from <= s@.len(),
    ensures
        match r {
            Some(k) => addr_len(s@.skip(from as int)) == Some(k as nat) && 1 <= k && from + k
                <= s@.len(),
            None => addr_len(s@.skip(from as int)) is None,
        },
{
    let ghost t = s@.skip(from as int);
    // establishes that the character count fits in usize
    let _len = s.unicode_len();
    let (pos, cnt) = scan_addr_pairs(s, from);
    if cnt > 3 {
        None
    } else {
        proof {
            assert(t.skip((pos - from) as int) =~= s@.skip(pos as int));
        }
        match scan_octet(s, pos) {
            Some(k) => Some(pos - from + k),
            None => None,
        }
    }
}

/// Recognizes an address at the start of `input`. On success returns the
/// pair (remainder, consumed), in that order.
pub fn parse_ipv4_address<'a>(input: &'a str) -> (r: Option<(&'a str, &'a str)>)
    ensures
        match addr_len(input@) {
            Some(k) => r is Some && r.unwrap().0@ == input@.skip(k as int) && r.unwrap().1@
                == input@.take(k as int),
            None => r is None,
        },
{
    proof {
        assert(input@.skip(0) =~= input@);
    }
    match scan_addr(input, 0) {
        Some(k) => {
            let len = input.unicode_len();
            let consumed = input.substring_char(0, k);
            let rest = input.substring_char(k, len);
            Some((rest, consumed))
        },
        None => None,
    }
}

// ---------------------------------------------------------------------------
// Whitespace
// ---------------------------------------------------------------------------

/// Counts the run of whitespace characters at position `from` of `s`.
pub(crate) fn scan_spaces(s: &str, from: usize) -> (n: usize)
    requires
        from <= s@.len(),
    ensures
        n == run_len(s@.skip(from as int), space_pred()),
        from + n <= s@.len(),
{
    let ghost t = s@.skip(from as int);
    let len = s.unicode_len();
    let mut i: usize = 0;
    while from + i < len && space_char_at(s, from + i)
        invariant
            from + i <= len,
            forall|j: int| 0 <= j < i ==> is_space_char(t[j]),
        decreases len - from - i,
    {
        i = i + 1;
    }
    proof {
        lemma_run_len_exact(t, space_pred(), i as int);
    }
    i
}

// ---------------------------------------------------------------------------
// Lines
// ---------------------------------------------------------------------------

/// Token yielded by a domain-list line: a host name at the start of the line;
/// anything after it (such as a trailing comment) is discarded.
pub open spec fn domain_line_token(t: Seq<char>) -> Option<Seq<char>> {
    match hostname_len(t) {
        Some(k) => Some(t.take(k as int)),
        None => None,
    }
}

/// Token yielded by a hosts-file line: an address, one or more whitespace
/// characters, then a host name; the address and any trailing remainder are
/// discarded and only the host name is kept.
pub open spec fn hostfile_line_token(t: Seq<char>) -> Option<Seq<char>> {
    match addr_len(t) {
        Some(a) => {
            let w = run_len(t.skip(a as int), space_pred());
            if w == 0 {
                None
            } else {
                match hostname_len(t.skip((a + w) as int)) {
                    Some(k) => Some(t.skip((a + w) as int).take(k as int)),
                    None => None,
                }
            }
        },
        None => None,
    }
}

/// Recognizes a domain-list line and returns its host-name token.
pub fn parse_domainlist_line<'a>(input: &'a str) -> (r: Option<&'a str>)
    ensures
        match domain_line_token(input@) {
            Some(tok) => r is Some && r.unwrap()@ == tok,
            None => r is None,
        },
{
    proof {
        assert(input@.skip(0) =~= input@);
    }
    match scan_hostname(input, 0) {
        Some(k) => Some(input.substring_char(0, k)),
        None => None,
    }
}

/// Recognizes a hosts-file line and returns its host-name token.
pub fn parse_hostfile_line<'a>(input: &'a str) -> (r: Option<&'a str>)
    ensures
        match hostfile_line_token(input@) {
            Some(tok) => r is Some && r.unwrap()@ == tok,
            None => r is None,
        },
{
    proof {
        assert(input@.skip(0) =~= input@);
    }
    // establishes that the character count fits in usize
    let _len = input.unicode_len();
    match scan_addr(input, 0) {
        Some(a) => {
            let w = scan_spaces(input, a);
            if w == 0 {
                None
            } else {
                match scan_hostname(input, a + w) {
                    Some(k) => {
                        proof {
                            assert(input@.skip(a + w).take(k as int) =~= input@.subrange(
                                a + w,
                                a + w + k,
                            ));
                        }
                        Some(input.substring_char(a + w, a + w + k))
                    },
                    None => None,
                }
            }
        },
        None => None,
    }
}

// ---------------------------------------------------------------------------
// Laws of the grammar
// ---------------------------------------------------------------------------

/// Law: a whole digit string of one to three digits whose value is at most
/// 255 is consumed entirely by the octet recognizer, with no remainder.
pub proof fn lemma_octet_accepts_short_digits(s: Seq<char>)
    requires
        1 <= s.len() <= 3,
        forall|j: int| 0 <= j < s.len() ==> is_digit_char(#[trigger] s[j]),
        digits_val(s) <= 255,
    ensures
        octet_len(s) == Some(s.len() as nat),
{
    lemma_run_len_exact(s, digit_pred(), s.len() as int);
    assert(s.take(s.len() as int) =~= s);
}

/// Law: a run of four or more digits is split, not consumed whole: exactly
/// three digits are taken when their value allows it, and the rest is left
/// as remainder.
pub proof fn lemma_octet_splits_long_digits(s: Seq<char>)
    requires
        s.len() >= 4,
        forall|j: int| 0 <= j < 4 ==> is_digit_char(#[trigger] s[j]),
        digits_val(s.take(3)) <= 255,
    ensures
        octet_len(s) == Some(3nat),
{
    lemma_run_len_at_least(s, digit_pred(), 4);
}

/// Law: the octet recognizer rejects empty input, and rejects any whole
/// digit string whose value exceeds 255.
pub proof fn lemma_octet_rejects(s: Seq<char>)
    requires
        s.len() == 0 || (1 <= s.len() <= 3 && (forall|j: int|
            0 <= j < s.len() ==> is_digit_char(#[trigger] s[j])) && digits_val(s) > 255),
    ensures
        octet_len(s) is None,
{
    if s.len() == 0 {
        lemma_run_len_exact(s, digit_pred(), 0);
    } else {
        lemma_run_len_exact(s, digit_pred(), s.len() as int);
        assert(s.take(s.len() as int) =~= s);
    }
}

/// Law: a whole string of 1 to 63 label characters is accepted as a label,
/// consumed entirely.
pub proof fn lemma_label_accepts(s: Seq<char>)
    requires
        1 <= s.len() <= 63,
        forall|j: int| 0 <= j < s.len() ==> is_label_char(#[trigger] s[j]),
    ensures
        label_len(s) == Some(s.len() as nat),
{
    lemma_run_len_exact(s, label_pred(), s.len() as int);
}

/// Law: the label recognizer rejects the empty string, and rejects any whole
/// string of 64 or more label characters outright.
pub proof fn lemma_label_rejects(s: Seq<char>)
    requires
        s.len() == 0 || (s.len() >= 64 && forall|j: int|
            0 <= j < s.len() ==> is_label_char(#[trigger] s[j])),
    ensures
        label_len(s) is None,
{
    if s.len() == 0 {
        lemma_run_len_exact(s, label_pred(), 0);
    } else {
        lemma_run_len_at_least(s, label_pred(), 64);
    }
}

/// A valid label: 1 to 63 characters, all from the label alphabet.
pub open spec fn valid_label(l: Seq<char>) -> bool {
    1 <= l.len() <= 63 && forall|j: int| 0 <= j < l.len() ==> is_label_char(#[trigger] l[j])
}

/// The dotted name built from a label list: the labels in order, with a dot
/// between each adjacent pair.
pub open spec fn dotted(labels: Seq<Seq<char>>) -> Seq<char>
    decreases labels.len(),
{
    if labels.len() == 0 {
        Seq::<char>::empty()
    } else if labels.len() == 1 {
        labels[0]
    } else {
        labels[0] + seq!['.'] + dotted(labels.drop_first())
    }
}

proof fn lemma_dotted_pairs(labels: Seq<Seq<char>>)
    requires
        labels.len() >= 1,
        forall|i: int| 0 <= i < labels.len() ==> valid_label(#[trigger] labels[i]),
    ensures
        dotted(labels).len() >= labels.last().len(),
        pairs_len(dotted(labels)) == dotted(labels).len() - labels.last().len(),
        label_len(dotted(labels).skip(pairs_len(dotted(labels)) as int)) == Some(
            labels.last().len() as nat,
        ),
    decreases labels.len(),
{
    let s = dotted(labels);
    if labels.len() == 1 {
        let l0 = labels[0];
        assert(valid_label(l0));
        lemma_run_len_exact(s, label_pred(), l0.len() as int);
        assert(pairs_len(s) == 0);
        assert(s.skip(0) =~= s);
    } else {
        let l0 = labels[0];
        let rest = labels.drop_first();
        let t = dotted(rest);
        assert(valid_label(l0));
        assert(forall|i: int| 0 <= i < rest.len() ==> valid_label(#[trigger] rest[i])) by {
            assert(forall|i: int|
                0 <= i < rest.len() ==> rest[i] == labels[i + 1] && valid_label(
                    #[trigger] labels[i + 1],
                ));
        }
        lemma_dotted_pairs(rest);
        assert(rest.last() == labels.last());
        assert(s == l0 + seq!['.'] + t);
        assert(s.len() == l0.len() + 1 + t.len());
        assert(forall|j: int| 0 <= j < l0.len() ==> s[j] == l0[j]);
        assert(s[l0.len() as int] == '.');
        assert(!is_label_char('.')) by {
            assert('.' as u32 == 46);
        }
        lemma_run_len_exact(s, label_pred(), l0.len() as int);
        assert(label_len(s) == Some(l0.len() as nat));
        assert(s.skip(l0.len() as int + 1) =~= t);
        assert(pairs_len(s) == l0.len() + 1 + pairs_len(t));
        assert(s.skip(pairs_len(s) as int) =~= t.skip(pairs_len(t) as int));
    }
}

/// Law: a dotted name built from two or more valid labels is accepted whole
/// by the host-name recognizer, which returns the exact input as the token.
pub proof fn lemma_hostname_accepts_dotted(labels: Seq<Seq<char>>)
    requires
        labels.len() >= 2,
        forall|i: int| 0 <= i < labels.len() ==> valid_label(#[trigger] labels[i]),
    ensures
        hostname_len(dotted(labels)) == Some(dotted(labels).len() as nat),
        domain_line_token(dotted(labels)) == Some(dotted(labels)),
{
    let s = dotted(labels);
    lemma_dotted_pairs(labels);
    assert(valid_label(labels[0]));
    assert(s.len() == labels[0].len() + 1 + dotted(labels.drop_first()).len());
    assert(dotted(labels.drop_first()).len() >= labels.last().len()) by {
        assert(labels.drop_first().last() == labels.last());
        lemma_dotted_pairs(labels.drop_first());
    }
    assert(pairs_len(s) > 0);
    assert(s.take(s.len() as int) =~= s);
}

/// Law: a single label alone, with no dot, is rejected by the host-name
/// recognizer.
pub proof fn lemma_hostname_rejects_single_label(l: Seq<char>)
    requires
        valid_label(l),
    ensures
        hostname_len(l) is None,
{
    lemma_run_len_exact(l, label_pred(), l.len() as int);
    assert(pairs_len(l) == 0);
}

} // verus!

