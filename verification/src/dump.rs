//! Serialization back to `key=value` text, one pair per line, proved to
//! produce exactly what [`dump_chars`] describes.

use crate::model::{dump_chars, pair_line, PairModel};
use crate::Properties;
use vstd::prelude::*;
use vstd::string::StringExecFns;

verus! {

/// Serializing distributes over appending one pair at the end.
proof fn lemma_dump_snoc(pairs: Seq<PairModel>, p: PairModel)
    ensures
        dump_chars(pairs.push(p)) == dump_chars(pairs) + pair_line(p),
    decreases pairs.len(),
{
    if pairs.len() == 0 {
        let single = pairs.push(p);
        assert(single[0] == p);
        assert(single.drop_first() =~= Seq::<PairModel>::empty());
        assert(dump_chars(single) == pair_line(p) + dump_chars(single.drop_first()));
        assert(dump_chars(single.drop_first()) =~= Seq::<char>::empty());
        assert(pair_line(p) + Seq::<char>::empty() =~= pair_line(p));
        assert(dump_chars(pairs) =~= Seq::<char>::empty());
        assert(Seq::<char>::empty() + pair_line(p) =~= pair_line(p));
    } else {
        assert(pairs.push(p)[0] == pairs[0]);
        assert(pairs.push(p).drop_first() =~= pairs.drop_first().push(p));
        lemma_dump_snoc(pairs.drop_first(), p);
        assert(pair_line(pairs[0]) + (dump_chars(pairs.drop_first()) + pair_line(p)) =~= (pair_line(
            pairs[0],
        ) + dump_chars(pairs.drop_first())) + pair_line(p));
    }
}

impl Properties {
    /// The text form of the store: `key=value` and a line feed for each
    /// pair, in store order.  No escaping is applied on output, so a value
    /// holding line breaks, comment marks or separators will not read back
    /// as it was written.
    pub fn dump(&self) -> (r: String)
        ensures
            r@ == dump_chars(self@),
    {
        let mut out = String::new();
        let n = self.len();
        let mut i: usize = 0;
        proof {
            assert(self@.take(0) =~= Seq::<PairModel>::empty());
            assert(out@ =~= dump_chars(self@.take(0)));
        }
        while i < n
            invariant
                n == self@.len(),
                0 <= i <= n,
                out@ == dump_chars(self@.take(i as int)),
            decreases n - i,
        {
            let p = self.pair_ref(i);
            out.append(p.0.as_str());
            out.append("=");
            out.append(p.1.as_str());
            out.append("\n");
            proof {
                reveal_strlit("=");
                reveal_strlit("\n");
                assert("="@ =~= seq!['=']);
                assert("\n"@ =~= seq!['\n']);
                assert(self@.take(i as int + 1) =~= self@.take(i as int).push(self@[i as int]));
                lemma_dump_snoc(self@.take(i as int), self@[i as int]);
                assert(out@ =~= dump_chars(self@.take(i as int)) + pair_line(self@[i as int]));
            }
            i += 1;
        }
        proof {
            assert(self@.take(n as int) =~= self@);
        }
        out
    }
}

} // verus!
