//! Rendering of the final host list in DNS response-policy-zone text form.

use vstd::prelude::*;
use vstd::string::*;

verus! {

/// The two policy-zone lines for one host: the host itself and its wildcard,
/// each mapped to `CNAME .`.
pub open spec fn rpz_entry(h: Seq<char>) -> Seq<char> {
    h + "\tCNAME\t.\n*."@ + h + "\tCNAME\t.\n"@
}

/// The policy-zone text of a host list, one entry after another in list
/// order.
pub open spec fn rpz_body(hs: Seq<Seq<char>>) -> Seq<char>
    decreases hs.len(),
{
    if hs.len() == 0 {
        Seq::<char>::empty()
    } else {
        rpz_body(hs.drop_last()) + rpz_entry(hs.last())
    }
}

/// The texts of a string list.
pub open spec fn texts_of(v: Seq<String>) -> Seq<Seq<char>> {
    Seq::new(v.len(), |i: int| v[i]@)
}

/// Renders the two policy-zone lines for one host.
pub fn domain_to_blocklist_rpz_domain(host: &String) -> (r: String)
    ensures
        r@ == rpz_entry(host@),
{
    let mut m = String::new();
    m.append(host.as_str());
    m.append("\tCNAME\t.\n*.");
    m.append(host.as_str());
    m.append("\tCNAME\t.\n");
    proof {
        assert(m@ =~= rpz_entry(host@));
    }
    m
}

/// Renders the whole host list as policy-zone text, in list order.
pub fn render_rpz(hosts: &Vec<String>) -> (r: String)
    ensures
        r@ == rpz_body(texts_of(hosts@)),
{
    let mut out = String::new();
    let n = hosts.len();
    let mut i: usize = 0;
    proof {
        assert(out@ =~= rpz_body(texts_of(hosts@).take(0)));
    }
    while i < n
        invariant
            i <= n,
            n == hosts@.len(),
            out@ == rpz_body(texts_of(hosts@).take(i as int)),
        decreases n - i,
    {
        let entry = domain_to_blocklist_rpz_domain(&hosts[i]);
        out.append(entry.as_str());
        proof {
            let ts = texts_of(hosts@);
            assert(ts.take(i + 1).drop_last() =~= ts.take(i as int));
            assert(ts.take(i + 1).last() == hosts@[i as int]@);
        }
        i = i + 1;
    }
    proof {
        assert(texts_of(hosts@).take(n as int) =~= texts_of(hosts@));
    }
    out
}

// ---------------------------------------------------------------------------
// Laws of the rendered text
// ---------------------------------------------------------------------------

/// Start offset of the entry of the `i`-th listed host inside the rendered
/// text.
pub open spec fn rpz_offset(hs: Seq<Seq<char>>, i: int) -> int {
    rpz_body(hs.take(i)).len() as int
}

/// Law: the rendered text tiles exactly into one entry per listed host: the
/// `i`-th entry occupies the text between offsets `i` and `i + 1`, and those
/// ranges cover the text end to end. So the text holds entries only for
/// hosts present in the list.
pub proof fn lemma_rpz_body_tiles(hs: Seq<Seq<char>>, i: int)
    requires
        0 <= i < hs.len(),
    ensures
        rpz_offset(hs, 0) == 0,
        rpz_offset(hs, i + 1) == rpz_offset(hs, i) + rpz_entry(hs[i]).len(),
        rpz_offset(hs, hs.len() as int) == rpz_body(hs).len(),
        0 <= rpz_offset(hs, i),
        rpz_offset(hs, i + 1) <= rpz_body(hs).len(),
        rpz_body(hs).subrange(rpz_offset(hs, i), rpz_offset(hs, i + 1)) == rpz_entry(hs[i]),
    decreases hs.len(),
{
    assert(hs.take(0) =~= Seq::<Seq<char>>::empty());
    assert(hs.take(hs.len() as int) =~= hs);
    if i == hs.len() - 1 {
        assert(hs.take(i) =~= hs.drop_last());
        assert(hs.take(i + 1) =~= hs);
        assert(rpz_body(hs) == rpz_body(hs.drop_last()) + rpz_entry(hs[i]));
        assert(rpz_body(hs).subrange(rpz_offset(hs, i), rpz_offset(hs, i + 1)) =~= rpz_entry(
            hs[i],
        ));
    } else {
        let shorter = hs.drop_last();
        assert(shorter.take(i) =~= hs.take(i));
        assert(shorter.take(i + 1) =~= hs.take(i + 1));
        assert(shorter.take(shorter.len() as int) =~= shorter);
        lemma_rpz_body_tiles(shorter, i);
        assert(rpz_body(hs) == rpz_body(shorter) + rpz_entry(hs.last()));
        assert(rpz_body(hs).subrange(rpz_offset(hs, i), rpz_offset(hs, i + 1)) =~= rpz_body(
            shorter,
        ).subrange(rpz_offset(shorter, i), rpz_offset(shorter, i + 1)));
    }
}

/// Law: no sentinel entry is rendered. A host list drawn from a set that
/// sentinel removal left behind lists no sentinel host, and the rendered
/// text tiles exactly into one entry per listed host, so every entry of the
/// text is the entry of a listed, non-sentinel host — whatever the sources
/// held before removal.
pub proof fn lemma_no_sentinel_entry_rendered(
    before: Set<Seq<char>>,
    hs: Seq<Seq<char>>,
    i: int,
)
    requires
        forall|j: int|
            0 <= j < hs.len() ==> before.difference(crate::hosts::sentinel_hosts()).contains(
                #[trigger] hs[j],
            ),
        0 <= i < hs.len(),
    ensures
        rpz_body(hs).subrange(rpz_offset(hs, i), rpz_offset(hs, i + 1)) == rpz_entry(hs[i]),
        !crate::hosts::sentinel_hosts().contains(hs[i]),
{
    lemma_rpz_body_tiles(hs, i);
}

} // verus!
