//! Renderers for the compacted set: plain newline-separated domains, and a
//! BIND zone file whose records point each blocked domain, and a wildcard
//! under it, at the root (an NXDOMAIN-equivalent sinkhole).

use vstd::prelude::*;

use crate::index::DomainIndex;

verus! {

/// One line per entry, in index order.
pub open spec fn plain_lines(items: Seq<Seq<char>>) -> Seq<char>
    decreases items.len(),
{
    if items.len() == 0 {
        Seq::empty()
    } else {
        plain_lines(items.drop_last()) + items.last() + "\n"@
    }
}

#[verifier::loop_isolation(false)]
fn append_plain_lines(out: &mut String, index: &DomainIndex)
    ensures
        final(out)@ == old(out)@ + plain_lines(index@),
{
    let n = index.len();
    let mut i: usize = 0;
    proof {
        assert(index@.subrange(0, 0) =~= Seq::<Seq<char>>::empty());
        assert(out@ =~= out@ + plain_lines(index@.subrange(0, 0)));
    }
    while i < n
        invariant
            i <= n,
            out@ == old(out)@ + plain_lines(index@.subrange(0, i as int)),
        decreases n - i,
    {
        out.append(index.get(i).as_str());
        out.append("\n");
        proof {
            assert(index@.subrange(0, i + 1).drop_last() =~= index@.subrange(0, i as int));
            assert(index@.subrange(0, i + 1).last() == index@[i as int]);
            assert(out@ =~= old(out)@ + plain_lines(index@.subrange(0, i + 1)));
        }
        i = i + 1;
    }
    proof {
        assert(index@.subrange(0, n as int) =~= index@);
    }
}

/// Renders the compacted set as plain newline-separated domains: first the
/// `com` partition, then the other.
pub fn render_output(index_com: &DomainIndex, index_net: &DomainIndex) -> (r: String)
    ensures
        r@ == plain_lines(index_com@) + plain_lines(index_net@),
{
    let mut out = String::new();
    append_plain_lines(&mut out, index_com);
    append_plain_lines(&mut out, index_net);
    out
}

/// The fixed SOA/NS preamble of the generated zone file.
pub open spec fn bind_preamble() -> Seq<char> {
    "$TTL 60\n@   IN    SOA  localhost. root.localhost.  (\n        2   ; serial \n        3H  ; refresh \n        1H  ; retry \n        1W  ; expiry \n        1H) ; minimum \n    IN    NS    localhost.\n"@
}

/// Two records per entry: the domain itself and a wildcard under it, both
/// aliased to the root.
pub open spec fn bind_records(items: Seq<Seq<char>>) -> Seq<char>
    decreases items.len(),
{
    if items.len() == 0 {
        Seq::empty()
    } else {
        bind_records(items.drop_last()) + items.last() + " CNAME .\n"@ + "*."@ + items.last()
            + " CNAME .\n"@
    }
}

#[verifier::loop_isolation(false)]
fn append_bind_records(out: &mut String, index: &DomainIndex)
    ensures
        final(out)@ == old(out)@ + bind_records(index@),
{
    let n = index.len();
    let mut i: usize = 0;
    proof {
        assert(index@.subrange(0, 0) =~= Seq::<Seq<char>>::empty());
        assert(out@ =~= out@ + bind_records(index@.subrange(0, 0)));
    }
    while i < n
        invariant
            i <= n,
            out@ == old(out)@ + bind_records(index@.subrange(0, i as int)),
        decreases n - i,
    {
        out.append(index.get(i).as_str());
        out.append(" CNAME .\n");
        out.append("*.");
        out.append(index.get(i).as_str());
        out.append(" CNAME .\n");
        proof {
            assert(index@.subrange(0, i + 1).drop_last() =~= index@.subrange(0, i as int));
            assert(index@.subrange(0, i + 1).last() == index@[i as int]);
            assert(out@ =~= old(out)@ + bind_records(index@.subrange(0, i + 1)));
        }
        i = i + 1;
    }
    proof {
        assert(index@.subrange(0, n as int) =~= index@);
    }
}

/// Renders the compacted set as a BIND zone file: the fixed preamble, then the
/// records of the `com` partition, then those of the other.
pub fn render_bind_output(index_com: &DomainIndex, index_net: &DomainIndex) -> (r: String)
    ensures
        r@ == bind_preamble() + bind_records(index_com@) + bind_records(index_net@),
{
    let mut out = String::new();
    out.append(
        "$TTL 60\n@   IN    SOA  localhost. root.localhost.  (\n        2   ; serial \n        3H  ; refresh \n        1H  ; retry \n        1W  ; expiry \n        1H) ; minimum \n    IN    NS    localhost.\n",
    );
    proof {
        assert(out@ =~= bind_preamble());
    }
    append_bind_records(&mut out, index_com);
    append_bind_records(&mut out, index_net);
    out
}

} // verus!
