use crate::entry::{EntryId, IdKind};
use core::hash::{Hash, Hasher};
use siphasher::sip::SipHasher;
use vstd::prelude::*;

verus! {

/// Whether `cp` lies in one of the ideographic blocks that count as script content.
pub open spec fn is_good_cjk_spec(cp: u32) -> bool {
    (0x4E00 <= cp <= 0x9FFF)
    || (0x3400 <= cp <= 0x4DBF)
    || (0x20000 <= cp <= 0x2A6DF)
    || (0x2A700 <= cp <= 0x2B73F)
    || (0x2B740 <= cp <= 0x2B81F)
    || (0x2B820 <= cp <= 0x2CEAF)
    || (0x2CEB0 <= cp <= 0x2EBEF)
    || (0x2EBF0 <= cp <= 0x2EE5F)
    || (0x2F800 <= cp <= 0x2FA1F)
    || (0xF900 <= cp <= 0xFAFF)
    || (0x2E80 <= cp <= 0x2EFF)
}

/// Whether `c` is a qualifying ideographic character.
pub open spec fn good_cjk(c: char) -> bool {
    is_good_cjk_spec(c as u32)
}

pub fn is_good_cjk(c: char) -> (r: bool)
    ensures
        r == good_cjk(c),
{
    let cp: u32 = c as u32;
    (0x4E00 <= cp && cp <= 0x9FFF)
    || (0x3400 <= cp && cp <= 0x4DBF)
    || (0x20000 <= cp && cp <= 0x2A6DF)
    || (0x2A700 <= cp && cp <= 0x2B73F)
    || (0x2B740 <= cp && cp <= 0x2B81F)
    || (0x2B820 <= cp && cp <= 0x2CEAF)
    || (0x2CEB0 <= cp && cp <= 0x2EBEF)
    || (0x2EBF0 <= cp && cp <= 0x2EE5F)
    || (0x2F800 <= cp && cp <= 0x2FA1F)
    || (0xF900 <= cp && cp <= 0xFAFF)
    || (0x2E80 <= cp && cp <= 0x2EFF)
}

/// The digits of base 91, in order.
pub open spec fn base91_table() -> Seq<char> {
    seq![
        'a', 'b', 'c', 'd', 'e', 'f', 'g', 'h', 'i', 'j', 'k', 'l', 'm', 'n', 'o', 'p', 'q', 'r',
        's', 't', 'u', 'v', 'w', 'x', 'y', 'z', 'A', 'B', 'C', 'D', 'E', 'F', 'G', 'H', 'I', 'J',
        'K', 'L', 'M', 'N', 'O', 'P', 'Q', 'R', 'S', 'T', 'U', 'V', 'W', 'X', 'Y', 'Z', '0', '1',
        '2', '3', '4', '5', '6', '7', '8', '9', '!', '#', '$', '%', '&', '(', ')', '*', '+', ',',
        '-', '.', '/', ':', ';', '<', '=', '>', '?', '@', '[', ']', '^', '_', '`', '{', '|', '}',
        '~',
    ]
}

/// `x` in base 91, most significant digit first, without leading zeros (so
/// zero is the empty string).
pub open spec fn base91_digits(x: nat) -> Seq<char>
    decreases x,
{
    if x == 0 {
        Seq::empty()
    } else {
        base91_digits(x / 91).push(base91_table()[(x % 91) as int])
    }
}

fn base91_table_vec() -> (r: Vec<char>)
    ensures
        r@ == base91_table(),
{
    let r: Vec<char> = vec![
        'a', 'b', 'c', 'd', 'e', 'f', 'g', 'h', 'i', 'j', 'k', 'l', 'm', 'n', 'o', 'p', 'q', 'r',
        's', 't', 'u', 'v', 'w', 'x', 'y', 'z', 'A', 'B', 'C', 'D', 'E', 'F', 'G', 'H', 'I', 'J',
        'K', 'L', 'M', 'N', 'O', 'P', 'Q', 'R', 'S', 'T', 'U', 'V', 'W', 'X', 'Y', 'Z', '0', '1',
        '2', '3', '4', '5', '6', '7', '8', '9', '!', '#', '$', '%', '&', '(', ')', '*', '+', ',',
        '-', '.', '/', ':', ';', '<', '=', '>', '?', '@', '[', ']', '^', '_', '`', '{', '|', '}',
        '~',
    ];
    proof {
        assert(r@ =~= base91_table());
    }
    r
}

pub fn base91_encode(x: u64) -> (r: String)
    ensures
        r@ == base91_digits(x as nat),
{
    let table = base91_table_vec();
    let mut rev: Vec<char> = Vec::new();
    let mut y: u64 = x;
    while y != 0
        invariant
            table@ == base91_table(),
            base91_digits(x as nat) == base91_digits(y as nat) + rev@.reverse(),
        decreases y,
    {
        let d = table[(y % 91) as usize];
        proof {
            let t = base91_digits((y / 91) as nat);
            assert(base91_digits(y as nat) == t.push(d));
            assert(rev@.push(d).reverse() =~= seq![d] + rev@.reverse());
            assert(t.push(d) + rev@.reverse() =~= t + rev@.push(d).reverse());
        }
        rev.push(d);
        y = y / 91;
    }
    let mut out: Vec<char> = Vec::new();
    let mut i: usize = rev.len();
    proof {
        assert(base91_digits(0) =~= Seq::<char>::empty());
        assert(Seq::<char>::empty() + rev@.reverse() =~= rev@.reverse());
    }
    while i > 0
        invariant
            i <= rev.len(),
            out@ == rev@.reverse().subrange(0, rev.len() - i),
        decreases i,
    {
        i -= 1;
        out.push(rev[i]);
        proof {
            assert(out@ =~= rev@.reverse().subrange(0, rev.len() - i));
        }
    }
    proof {
        assert(rev@.reverse().subrange(0, rev.len() as int) =~= rev@.reverse());
    }
    crate::entry::string_of(&out)
}

/// The SipHash-2-4 digest, with zero keys, of an identity as `Hash` feeds it.
pub uninterp spec fn id_digest(id: (IdKind, Seq<char>)) -> u64;

/// Relies on `siphasher::sip::SipHasher` (SipHash-2-4, zero keys) fed by the
/// derived `Hash` of `EntryId`: within one build for one target the digest
/// depends on the identity alone (the derived hash feeds the variant tag as a
/// pointer-sized integer, so 32- and 64-bit targets differ).
#[verifier::external_body]
fn sip_digest(id: &EntryId) -> (r: u64)
    ensures
        r == id_digest(id@),
{
    let mut h = SipHasher::new();
    id.hash(&mut h);
    h.finish()
}

/// The stable record identifier of an entry: its identity's digest in base 91.
pub fn guid_for(id: &EntryId) -> (r: String)
    ensures
        r@ == base91_digits(id_digest(id@) as nat),
{
    base91_encode(sip_digest(id))
}

/// No two identities of `ids` share a digest, hence a record identifier.
pub open spec fn digests_distinct(ids: Seq<EntryId>) -> bool {
    forall|i: int, j: int|
        0 <= i < ids.len() && 0 <= j < ids.len() && i != j ==> id_digest(ids[i]@) != id_digest(
            ids[j]@,
        )
}

/// Whether the stable record identifiers of `ids` are all different; a
/// collision must stop the assembly of the package.
pub fn guids_unique(ids: &Vec<EntryId>) -> (r: bool)
    ensures
        r == digests_distinct(ids@),
{
    let mut ds: Vec<u64> = Vec::new();
    let mut k: usize = 0;
    while k < ids.len()
        invariant
            k <= ids.len(),
            ds@.len() == k,
            forall|q: int| 0 <= q < k ==> #[trigger] ds@[q] == id_digest(ids@[q]@),
        decreases ids.len() - k,
    {
        ds.push(sip_digest(&ids[k]));
        k += 1;
    }
    let mut i: usize = 0;
    while i < ds.len()
        invariant
            i <= ds.len(),
            ds@.len() == ids@.len(),
            forall|q: int| 0 <= q < ds@.len() ==> #[trigger] ds@[q] == id_digest(ids@[q]@),
            forall|a: int, b: int| 0 <= a < i && 0 <= b < ds@.len() && a != b ==> ds@[a] != ds@[b],
        decreases ds.len() - i,
    {
        let mut j: usize = 0;
        while j < ds.len()
            invariant
                i < ds.len(),
                j <= ds.len(),
                ds@.len() == ids@.len(),
                forall|q: int| 0 <= q < ds@.len() ==> #[trigger] ds@[q] == id_digest(ids@[q]@),
                forall|b: int| 0 <= b < j && b != i ==> ds@[i as int] != ds@[b],
            decreases ds.len() - j,
        {
            if j != i && ds[i] == ds[j] {
                proof {
                    assert(ds@[i as int] == id_digest(ids@[i as int]@));
                    assert(ds@[j as int] == id_digest(ids@[j as int]@));
                    assert(!digests_distinct(ids@));
                }
                return false;
            }
            j += 1;
        }
        i += 1;
    }
    proof {
        assert forall|a: int, b: int|
            0 <= a < ids@.len() && 0 <= b < ids@.len() && a != b implies id_digest(ids@[a]@)
            != id_digest(ids@[b]@) by {
            assert(ds@[a] != ds@[b]);
        }
    }
    true
}

} // verus!
