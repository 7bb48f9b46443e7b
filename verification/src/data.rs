//! The payload of one list node: a key together with its value.
use vstd::prelude::*;
use vstd::string::StringExecFns;

verus! {

/// One key-value pair as a node stores it.
pub struct Data<K, V> {
    pub key: K,
    pub value: V,
}

impl<K, V> From<(K, V)> for Data<K, V> {
    fn from(pair: (K, V)) -> (d: Data<K, V>)
        ensures
            d.key == pair.0,
            d.value == pair.1,
    {
        Data { key: pair.0, value: pair.1 }
    }
}

impl<K, V> vstd::std_specs::convert::FromSpecImpl<(K, V)> for Data<K, V> {
    open spec fn obeys_from_spec() -> bool {
        true
    }

    open spec fn from_spec(pair: (K, V)) -> Data<K, V> {
        Data { key: pair.0, value: pair.1 }
    }
}

impl<K, V> Data<K, V> {
    /// The pair the payload holds, given back by value.
    pub fn into_pair(self) -> (pair: (K, V))
        ensures
            pair.0 == self.key,
            pair.1 == self.value,
    {
        (self.key, self.value)
    }
}

impl<'a> Data<u64, &'a str> {
    /// The payload rendered as `(key, value)`, for diagnostics.
    pub fn render(&self) -> (out: String)
        ensures
            out@ == "("@ + crate::render::dec_str(self.key as nat) + ", "@ + self.value@ + ")"@,
    {
        let mut out = String::from_str("(");
        crate::render::append_dec(&mut out, self.key);
        out.append(", ");
        out.append(self.value);
        out.append(")");
        proof {
            assert(out@ =~= "("@ + crate::render::dec_str(self.key as nat) + ", "@ + self.value@
                + ")"@);
        }
        out
    }
}

} // verus!
