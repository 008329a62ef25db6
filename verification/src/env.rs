use vstd::prelude::*;

use vstd::string::StringExecFns;

verus! {

/// The configuration the server needs: the market-data provider's API key.
pub struct EnvVars {
    pub alpha_vantage_api_key: String,
}

/// The value of the last pair named `key`, or nothing when no pair is.
/// The last pair wins, as collecting `key=value` lines into a map does.
pub open spec fn lookup_spec(pairs: Seq<(String, String)>, key: Seq<char>) -> Option<Seq<char>>
    decreases pairs.len(),
{
    if pairs.len() == 0 {
        None
    } else if pairs.last().0@ == key {
        Some(pairs.last().1@)
    } else {
        lookup_spec(pairs.drop_last(), key)
    }
}

#[verifier::loop_isolation(false)]
fn lookup(pairs: &Vec<(String, String)>, key: &String) -> (r: Option<String>)
    ensures
        match r {
            Some(v) => lookup_spec(pairs@, key@) == Some(v@),
            None => lookup_spec(pairs@, key@) is None,
        },
{
    let mut i: usize = pairs.len();
    proof {
        assert(pairs@.take(i as int) =~= pairs@);
    }
    while i > 0
        invariant
            i <= pairs.len(),
            lookup_spec(pairs@, key@) == lookup_spec(pairs@.take(i as int), key@),
        decreases i,
    {
        proof {
            assert(pairs@.take(i as int).drop_last() =~= pairs@.take(i - 1));
            assert(pairs@.take(i as int).last() == pairs@[i - 1]);
        }
        if pairs[i - 1].0 == *key {
            return Some(pairs[i - 1].1.clone());
        }
        i -= 1;
    }
    proof {
        assert(pairs@.take(0) =~= Seq::<(String, String)>::empty());
    }
    None
}

impl EnvVars {
    /// Build the configuration from the `key=value` pairs of the
    /// environment file: the provider key must be among them.
    pub fn from_pairs(pairs: &Vec<(String, String)>) -> (r: Option<EnvVars>)
        ensures
            match r {
                Some(e) => lookup_spec(pairs@, "ALPHA_VANTAGE_API_KEY"@) == Some(
                    e.alpha_vantage_api_key@,
                ),
                None => lookup_spec(pairs@, "ALPHA_VANTAGE_API_KEY"@) is None,
            },
    {
        let key: String = String::from_str("ALPHA_VANTAGE_API_KEY");
        match lookup(pairs, &key) {
            Some(v) => Some(EnvVars { alpha_vantage_api_key: v }),
            None => None,
        }
    }
}

} // verus!
