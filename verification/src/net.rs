//! What identifies a validator, where it can be reached, and tables keyed by validator.

use vstd::prelude::*;

verus! {

broadcast use vstd::array::group_array_axioms;

/// The identity of a validator: the bytes of its public key.
#[derive(Clone, Copy, Debug, Eq)]
pub struct Pubkey {
    pub bytes: [u8; 32],
}

impl PartialEq for Pubkey {
    fn eq(&self, other: &Pubkey) -> (equal: bool) {
        let mut i: usize = 0;
        while i < 32
            invariant
                i <= 32,
                forall|j: int| 0 <= j < i ==> self.bytes[j] == other.bytes[j],
            decreases 32 - i,
        {
            if self.bytes[i] != other.bytes[i] {
                return false;
            }
            i += 1;
        }
        assert(self.bytes =~= other.bytes);
        true
    }
}

impl vstd::std_specs::cmp::PartialEqSpecImpl for Pubkey {
    open spec fn obeys_eq_spec() -> bool {
        true
    }

    open spec fn eq_spec(&self, other: &Pubkey) -> bool {
        *self == *other
    }
}

/// An address and a port to send to.
#[allow(inconsistent_fields)]
#[derive(Clone, Copy, Debug, PartialEq, Eq, PartialOrd, Ord, Hash, Structural)]
pub enum SocketAddr {
    V4 { ip: u32, port: u16 },
    V6 { ip: u128, port: u16, flowinfo: u32, scope_id: u32 },
}

/// The value that `table` holds for `key`: that of the first pair with this key.
pub open spec fn value_of<V>(table: Seq<(Pubkey, V)>, key: Pubkey) -> Option<V>
    decreases table.len(),
{
    if table.len() == 0 {
        None
    } else if table[0].0 == key {
        Some(table[0].1)
    } else {
        value_of(table.drop_first(), key)
    }
}

/// Looks `key` up in `table`.
pub fn find_value<V: Copy>(table: &Vec<(Pubkey, V)>, key: &Pubkey) -> (value: Option<V>)
    ensures
        value == value_of(table@, *key),
{
    let mut i: usize = 0;
    assert(table@.skip(0) =~= table@);
    while i < table.len()
        invariant
            i <= table@.len(),
            value_of(table@, *key) == value_of(table@.skip(i as int), *key),
        decreases table@.len() - i,
    {
        assert(table@.skip(i as int).drop_first() =~= table@.skip(i + 1));
        if table[i].0 == *key {
            return Some(table[i].1);
        }
        i += 1;
    }
    None
}

/// A table in which no pair has the key `key` holds nothing for it.
pub proof fn lemma_value_of_absent<V>(table: Seq<(Pubkey, V)>, key: Pubkey)
    requires
        forall|i: int| 0 <= i < table.len() ==> (#[trigger] table[i]).0 != key,
    ensures
        value_of(table, key) is None,
    decreases table.len(),
{
    if table.len() > 0 {
        assert forall|i: int| 0 <= i < table.drop_first().len() implies (
        #[trigger] table.drop_first()[i]).0 != key by {
            assert(table.drop_first()[i] == table[i + 1]);
        }
        lemma_value_of_absent(table.drop_first(), key);
    }
}

} // verus!
