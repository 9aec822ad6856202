//! Canonical hosts and the deduplicated host set.
//!
//! A recognized token becomes a host only after the network-host
//! canonicalizer accepts it; accepted hosts are collected into a `HostSet`,
//! which stores each canonical form exactly once.

use vstd::prelude::*;
use vstd::string::*;

verus! {

/// Canonical form of a candidate host token: `Some` canonical text when the
/// token is a valid network host (domain name or IP literal), `None` when the
/// canonicalizer rejects it. The result depends on the token alone.
pub uninterp spec fn canon_of(token: Seq<char>) -> Option<Seq<char>>;

/// Relies on `url::Host::parse` to validate a host token and on the `Display`
/// form of `url::Host` for the canonical text; both depend on the token alone.
#[verifier::external_body]
pub(crate) fn canonicalize_host(token: &str) -> (r: Option<String>)
    ensures
        r is Some <==> canon_of(token@) is Some,
        r is Some ==> r.unwrap()@ == canon_of(token@).unwrap(),
{
    match url::Host::parse(token) {
        Ok(host) => Some(host.to_string()),
        Err(_) => None,
    }
}

proof fn lemma_push_keeps_no_duplicates(s: Seq<Seq<char>>, x: Seq<char>)
    requires
        s.no_duplicates(),
        !s.contains(x),
    ensures
        s.push(x).no_duplicates(),
{
    let p = s.push(x);
    assert forall|i: int, j: int|
        0 <= i < p.len() && 0 <= j < p.len() && i != j implies p[i] != p[j] by {
        if i < s.len() && j < s.len() {
            assert(p[i] == s[i] && p[j] == s[j]);
        } else if j == s.len() {
            assert(p[j] == x);
            assert(p[i] == s[i]);
            if s[i] == x {
                assert(s.contains(x));
            }
        } else {
            assert(p[i] == x);
            assert(p[j] == s[j]);
            if s[j] == x {
                assert(s.contains(x));
            }
        }
    }
}

/// A set of canonical hosts: each host is stored exactly once.
pub struct HostSet {
    items: Vec<String>,
}

impl View for HostSet {
    type V = Set<Seq<char>>;

    closed spec fn view(&self) -> Set<Seq<char>> {
        self.seq_view().to_set()
    }
}

impl HostSet {
    /// The stored canonical texts, in insertion order.
    pub closed spec fn seq_view(&self) -> Seq<Seq<char>> {
        Seq::new(self.items@.len(), |i: int| self.items@[i]@)
    }

    /// Well-formed: no canonical text is stored twice.
    pub closed spec fn wf(&self) -> bool {
        self.seq_view().no_duplicates()
    }

    /// Creates an empty set.
    pub fn new() -> (r: HostSet)
        ensures
            r.wf(),
            r@ == Set::<Seq<char>>::empty(),
            r.seq_view().len() == 0,
    {
        let r = HostSet { items: Vec::new() };
        proof {
            assert(r.seq_view() =~= Seq::<Seq<char>>::empty());
            assert(r@ =~= Set::<Seq<char>>::empty());
        }
        r
    }

    /// Number of stored hosts.
    pub fn len(&self) -> (n: usize)
        ensures
            n == self.seq_view().len(),
    {
        self.items.len()
    }

    /// Whether the canonical text `x` is in the set.
    pub fn contains(&self, x: &String) -> (r: bool)
        ensures
            r == self@.contains(x@),
    {
        let n = self.items.len();
        let mut i: usize = 0;
        while i < n
            invariant
                i <= n,
                n == self.items.len(),
                forall|j: int| 0 <= j < i ==> self.seq_view()[j] != x@,
            decreases n - i,
        {
            if self.items[i] == *x {
                proof {
                    assert(self.seq_view()[i as int] == x@);
                    assert(self.seq_view().contains(x@));
                }
                return true;
            }
            i = i + 1;
        }
        proof {
            if self.seq_view().contains(x@) {
                let k = choose|k: int|
                    0 <= k < self.seq_view().len() && self.seq_view()[k] == x@;
                assert(false);
            }
        }
        false
    }

    /// Inserts the canonical text `x`; a host already present is not stored
    /// again.
    pub fn insert(&mut self, x: String)
        requires
            old(self).wf(),
        ensures
            final(self).wf(),
            final(self)@ == old(self)@.insert(x@),
            final(self).seq_view().len() <= old(self).seq_view().len() + 1,
    {
        let ghost s0 = self.seq_view();
        if !self.contains(&x) {
            proof {
                if s0.contains(x@) {
                    assert(self@.contains(x@));
                }
            }
            self.items.push(x);
            proof {
                assert(self.seq_view() =~= s0.push(x@));
                lemma_push_keeps_no_duplicates(s0, x@);
                assert forall|e: Seq<char>|
                    self.seq_view().contains(e) <==> (s0.contains(e) || e == x@) by {
                    if self.seq_view().contains(e) {
                        let k = choose|k: int|
                            0 <= k < self.seq_view().len() && self.seq_view()[k] == e;
                        if k < s0.len() {
                            assert(s0[k] == e);
                        }
                    }
                    if s0.contains(e) {
                        let k = choose|k: int| 0 <= k < s0.len() && s0[k] == e;
                        assert(self.seq_view()[k] == e);
                    }
                    if e == x@ {
                        assert(self.seq_view()[s0.len() as int] == e);
                    }
                }
                assert(self@ =~= old(self)@.insert(x@));
            }
        } else {
            proof {
                assert(self@ =~= old(self)@.insert(x@));
            }
        }
    }

    /// Removes the canonical text `x`, if present.
    pub fn remove(&mut self, x: &String)
        requires
            old(self).wf(),
        ensures
            final(self).wf(),
            final(self)@ == old(self)@.remove(x@),
    {
        let ghost s0 = self.seq_view();
        let n = self.items.len();
        let mut i: usize = 0;
        while i < n
            invariant
                i <= n,
                n == self.items.len(),
                self == old(self),
                forall|j: int| 0 <= j < i ==> self.seq_view()[j] != x@,
            decreases n - i,
        {
            if self.items[i] == *x {
                proof {
                    assert(s0[i as int] == x@);
                }
                self.items.remove(i);
                proof {
                    assert(self.seq_view() =~= s0.remove(i as int));
                    lemma_remove_keeps_no_duplicates(s0, i as int);
                    lemma_remove_to_set(s0, i as int);
                    assert(self@ =~= old(self)@.remove(x@));
                }
                return ;
            }
            i = i + 1;
        }
        proof {
            if s0.contains(x@) {
                let k = choose|k: int| 0 <= k < s0.len() && s0[k] == x@;
                assert(false);
            }
            assert(self@ =~= old(self)@.remove(x@));
        }
    }

    /// Adds every host of `other` to this set.
    pub fn extend_from(&mut self, other: &HostSet)
        requires
            old(self).wf(),
        ensures
            final(self).wf(),
            final(self)@ == old(self)@.union(other@),
    {
        let n = other.items.len();
        let mut i: usize = 0;
        proof {
            assert(self@.union(other.seq_view().take(0).to_set()) =~= self@);
        }
        while i < n
            invariant
                i <= n,
                n == other.items.len(),
                self.wf(),
                self@ == old(self)@.union(other.seq_view().take(i as int).to_set()),
            decreases n - i,
        {
            let ghost before = self@;
            let ghost taken = other.seq_view().take(i as int);
            let h = other.items[i].clone();
            proof {
                assert(h@ == other.seq_view()[i as int]);
            }
            self.insert(h);
            proof {
                let t1 = other.seq_view().take(i + 1);
                assert forall|e: Seq<char>|
                    self@.contains(e) <==> old(self)@.union(t1.to_set()).contains(e) by {
                    assert(t1.to_set().contains(e) == t1.contains(e));
                    assert(taken.to_set().contains(e) == taken.contains(e));
                    assert(self@.contains(e) <==> (before.contains(e) || e == h@));
                    if t1.contains(e) {
                        let k = choose|k: int| 0 <= k < t1.len() && t1[k] == e;
                        if k < i {
                            assert(taken[k] == e);
                            assert(taken.contains(e));
                        } else {
                            assert(e == h@);
                        }
                    }
                    if taken.contains(e) {
                        let k = choose|k: int| 0 <= k < taken.len() && taken[k] == e;
                        assert(t1[k] == e);
                        assert(t1.contains(e));
                    }
                    if e == h@ {
                        assert(t1[i as int] == e);
                        assert(t1.contains(e));
                    }
                }
                assert(self@ =~= old(self)@.union(t1.to_set()));
            }
            i = i + 1;
        }
        proof {
            assert(other.seq_view().take(n as int) =~= other.seq_view());
            assert(old(self)@.union(other.seq_view().to_set()) =~= old(self)@.union(other@));
        }
    }

    /// Hands the stored hosts out as a plain vector, in insertion order:
    /// every listed text is a member of the set, and every member is listed.
    pub fn into_items(self) -> (r: Vec<String>)
        ensures
            r@.len() == self.seq_view().len(),
            forall|i: int| 0 <= i < r@.len() ==> r@[i]@ == self.seq_view()[i],
            forall|i: int| 0 <= i < r@.len() ==> self@.contains(#[trigger] r@[i]@),
    {
        proof {
            assert forall|i: int| 0 <= i < self.items@.len() implies self@.contains(
                #[trigger] self.items@[i]@,
            ) by {
                assert(self.seq_view()[i] == self.items@[i]@);
                assert(self.seq_view().contains(self.seq_view()[i]));
            }
        }
        self.items
    }
}

// ---------------------------------------------------------------------------
// Per-line collection over a fetched body
// ---------------------------------------------------------------------------

pub open spec fn nonl_pred() -> spec_fn(char) -> bool {
    |c: char| c != '\n'
}

/// The first line of `t`: everything before the first newline, with one
/// carriage return stripped from its end when it directly precedes that
/// newline.
pub open spec fn line_at(t: Seq<char>) -> Seq<char> {
    let j = crate::parse::run_len(t, nonl_pred());
    let raw = t.take(j as int);
    if j < t.len() && raw.len() > 0 && raw.last() == '\r' {
        raw.drop_last()
    } else {
        raw
    }
}

/// Token of one line under the chosen format: a hosts-file line parses an
/// address first, a domain-list line starts with the host name.
pub open spec fn line_token(l: Seq<char>, hostsfile: bool) -> Option<Seq<char>> {
    if hostsfile {
        crate::parse::hostfile_line_token(l)
    } else {
        crate::parse::domain_line_token(l)
    }
}

/// Canonical host contributed by one line, if any: its token must both be
/// recognized and pass the canonicalizer.
pub open spec fn line_host(l: Seq<char>, hostsfile: bool) -> Set<Seq<char>> {
    match line_token(l, hostsfile) {
        Some(tok) => match canon_of(tok) {
            Some(h) => Set::<Seq<char>>::empty().insert(h),
            None => Set::<Seq<char>>::empty(),
        },
        None => Set::<Seq<char>>::empty(),
    }
}

/// All canonical hosts contributed by the lines of `t` under the chosen
/// format. Lines that fail the grammar or the canonicalizer contribute
/// nothing.
pub open spec fn body_hosts(t: Seq<char>, hostsfile: bool) -> Set<Seq<char>>
    decreases t.len(),
{
    if t.len() == 0 {
        Set::<Seq<char>>::empty()
    } else {
        let j = crate::parse::run_len(t, nonl_pred());
        let here = line_host(line_at(t), hostsfile);
        if j < t.len() {
            here.union(body_hosts(t.skip(j as int + 1), hostsfile))
        } else {
            here
        }
    }
}

/// Hosts of a domain-list body.
pub open spec fn domain_body_hosts(t: Seq<char>) -> Set<Seq<char>> {
    body_hosts(t, false)
}

/// Hosts of a hosts-file body.
pub open spec fn hostfile_body_hosts(t: Seq<char>) -> Set<Seq<char>> {
    body_hosts(t, true)
}

fn nonl_char_at(s: &str, i: usize) -> (r: bool)
    requires
        i < s@.len(),
    ensures
        r == (s@[i as int] != '\n'),
{
    s.get_char(i) != '\n'
}

/// Finds the first newline at or after `from`, or the end of `s`.
fn scan_to_newline(s: &str, from: usize) -> (j: usize)
    requires
        from <= s@.len(),
    ensures
        from <= j <= s@.len(),
        crate::parse::run_len(s@.skip(from as int), nonl_pred()) == j - from,
        j < s@.len() ==> s@[j as int] == '\n',
{
    let ghost t = s@.skip(from as int);
    let len = s.unicode_len();
    let mut j = from;
    while j < len && nonl_char_at(s, j)
        invariant
            from <= j <= len,
            forall|k: int| 0 <= k < j - from ==> t[k] != '\n',
        decreases len - j,
    {
        j = j + 1;
    }
    proof {
        assert forall|k: int| 0 <= k < j - from implies #[trigger] nonl_pred()(t[k]) by {}
        crate::parse::lemma_run_len_exact(t, nonl_pred(), j - from);
    }
    j
}

/// Applies the grammar of the chosen format to every line of `file_body` and
/// inserts each canonicalized host into `set`; malformed lines are skipped.
fn build_lines(file_body: &str, hostsfile: bool, set: &mut HostSet)
    requires
        old(set).wf(),
    ensures
        final(set).wf(),
        final(set)@ == old(set)@.union(body_hosts(file_body@, hostsfile)),
{
    let len = file_body.unicode_len();
    let mut pos: usize = 0;
    proof {
        assert(file_body@.skip(0) =~= file_body@);
    }
    while pos < len
        invariant
            pos <= len,
            set.wf(),
            old(set)@.union(body_hosts(file_body@, hostsfile)) == set@.union(
                body_hosts(file_body@.skip(pos as int), hostsfile),
            ),
        decreases len - pos,
    {
        let ghost u = file_body@.skip(pos as int);
        let ghost before = set@;
        let j = scan_to_newline(file_body, pos);
        let line_end = if j < len && j > pos && file_body.get_char(j - 1) == '\r' {
            j - 1
        } else {
            j
        };
        let line = file_body.substring_char(pos, line_end);
        proof {
            assert(u.take((j - pos) as int) =~= file_body@.subrange(pos as int, j as int));
            if line_end < j {
                assert(u.take((j - pos) as int).last() == file_body@[j - 1]);
                assert(line@ =~= u.take((j - pos) as int).drop_last());
            } else if j < len && j > pos {
                assert(u.take((j - pos) as int).last() == file_body@[j - 1]);
            }
            assert(line@ == line_at(u));
        }
        let token = if hostsfile {
            crate::parse::parse_hostfile_line(line)
        } else {
            crate::parse::parse_domainlist_line(line)
        };
        match token {
            Some(tok) => {
                match canonicalize_host(tok) {
                    Some(h) => {
                        proof {
                            assert(line_host(line@, hostsfile).contains(h@));
                            assert(line_host(line@, hostsfile) =~= Set::<Seq<char>>::empty().insert(
                                h@,
                            ));
                        }
                        set.insert(h);
                    },
                    None => {
                        proof {
                            assert(line_host(line@, hostsfile) =~= Set::<Seq<char>>::empty());
                        }
                    },
                }
            },
            None => {
                proof {
                    assert(line_host(line@, hostsfile) =~= Set::<Seq<char>>::empty());
                }
            },
        }
        proof {
            let here = line_host(line_at(u), hostsfile);
            if j < len {
                assert(u.skip((j - pos) as int + 1) =~= file_body@.skip(j as int + 1));
                assert(body_hosts(u, hostsfile) == here.union(
                    body_hosts(file_body@.skip(j as int + 1), hostsfile),
                ));
                assert(set@.union(body_hosts(file_body@.skip(j as int + 1), hostsfile)) =~= before
                    .union(body_hosts(u, hostsfile)));
            } else {
                assert(body_hosts(u, hostsfile) == here);
                assert(file_body@.skip(len as int) =~= Seq::<char>::empty());
                assert(set@.union(body_hosts(file_body@.skip(len as int), hostsfile)) =~= before
                    .union(body_hosts(u, hostsfile)));
            }
        }
        pos = if j < len {
            j + 1
        } else {
            len
        };
    }
    proof {
        assert(file_body@.skip(len as int) =~= Seq::<char>::empty());
        assert(set@.union(body_hosts(file_body@.skip(len as int), hostsfile)) =~= set@);
    }
}

/// Collects every canonical host named by a domain-list body into `set`.
pub fn domainlist(file_body: &str, set: &mut HostSet)
    requires
        old(set).wf(),
    ensures
        final(set).wf(),
        final(set)@ == old(set)@.union(domain_body_hosts(file_body@)),
{
    build_lines(file_body, false, set)
}

/// Collects every canonical host named by a hosts-file body into `set`.
pub fn hostfile(file_body: &str, set: &mut HostSet)
    requires
        old(set).wf(),
    ensures
        final(set).wf(),
        final(set)@ == old(set)@.union(hostfile_body_hosts(file_body@)),
{
    build_lines(file_body, true, set)
}

// ---------------------------------------------------------------------------
// Sentinel hosts
// ---------------------------------------------------------------------------

/// The sentinel hosts, in canonical form: the canonicalized forms of
/// `0.0.0.0`, `127.0.0.1` and `255.255.255.255`. These are always removed
/// from a final set before output, whatever the sources held.
pub open spec fn sentinel_hosts() -> Set<Seq<char>> {
    Set::new(
        |h: Seq<char>|
            canon_of("0.0.0.0"@) == Some(h) || canon_of("127.0.0.1"@) == Some(h) || canon_of(
                "255.255.255.255"@,
            ) == Some(h),
    )
}

/// Removes every sentinel host from `set`.
pub fn remove_sentinels(set: &mut HostSet)
    requires
        old(set).wf(),
    ensures
        final(set).wf(),
        final(set)@ == old(set)@.difference(sentinel_hosts()),
{
    match canonicalize_host("0.0.0.0") {
        Some(h) => set.remove(&h),
        None => (),
    }
    match canonicalize_host("127.0.0.1") {
        Some(h) => set.remove(&h),
        None => (),
    }
    match canonicalize_host("255.255.255.255") {
        Some(h) => set.remove(&h),
        None => (),
    }
    proof {
        assert(final(set)@ =~= old(set)@.difference(sentinel_hosts()));
    }
}

/// Law: a well-formed host set stores each host exactly once, so its stored
/// count equals the cardinality of the set of hosts it holds.
pub proof fn lemma_len_is_cardinality(s: &HostSet)
    requires
        s.wf(),
    ensures
        s.seq_view().len() == s@.len(),
{
    s.seq_view().unique_seq_to_set();
}

/// Law: a merge of two host collections, overlapping or not, stores no
/// duplicates: the merged store's count equals the true cardinality of the
/// union of the two.
pub proof fn lemma_merge_cardinality(m: &HostSet, a: Set<Seq<char>>, b: Set<Seq<char>>)
    requires
        m.wf(),
        m@ == a.union(b),
    ensures
        m.seq_view().len() == a.union(b).len(),
{
    lemma_len_is_cardinality(m);
}

/// Law: after sentinel removal, no sentinel host is in the set, whatever the
/// sources held before.
pub proof fn lemma_sentinels_absent(before: Set<Seq<char>>, after: Set<Seq<char>>)
    requires
        after == before.difference(sentinel_hosts()),
    ensures
        forall|h: Seq<char>| sentinel_hosts().contains(h) ==> !after.contains(h),
{
}

proof fn lemma_remove_keeps_no_duplicates(s: Seq<Seq<char>>, i: int)
    requires
        0 <= i < s.len(),
        s.no_duplicates(),
    ensures
        s.remove(i).no_duplicates(),
{
    let r = s.remove(i);
    assert forall|a: int, b: int|
        0 <= a < r.len() && 0 <= b < r.len() && a != b implies r[a] != r[b] by {
        let a0 = if a < i {
            a
        } else {
            a + 1
        };
        let b0 = if b < i {
            b
        } else {
            b + 1
        };
        assert(r[a] == s[a0]);
        assert(r[b] == s[b0]);
    }
}

/// Removing the single occurrence of `s[i]` from a duplicate-free sequence
/// removes exactly that element from its set of values.
proof fn lemma_remove_to_set(s: Seq<Seq<char>>, i: int)
    requires
        0 <= i < s.len(),
        s.no_duplicates(),
    ensures
        s.remove(i).to_set() =~= s.to_set().remove(s[i]),
{
    let r = s.remove(i);
    assert forall|e: Seq<char>| r.contains(e) implies s.to_set().remove(s[i]).contains(e) by {
        let k = choose|k: int| 0 <= k < r.len() && r[k] == e;
        let k0 = if k < i {
            k
        } else {
            k + 1
        };
        assert(s[k0] == e);
        assert(s.contains(e));
        if e == s[i] {
            assert(s[k0] == s[i] && k0 != i);
        }
    }
    assert forall|e: Seq<char>| s.to_set().remove(s[i]).contains(e) implies r.contains(e) by {
        let k = choose|k: int| 0 <= k < s.len() && s[k] == e;
        assert(k != i);
        let k1 = if k < i {
            k
        } else {
            k - 1
        };
        assert(r[k1] == e);
    }
}

} // verus!
