//! The rules by which mDNS discovery recognises a Homey Energy Dongle.
use vstd::prelude::*;
use vstd::string::StrSliceExecFns;

verus! {

/// The value of the last TXT property of `props` whose key is `key`.
pub open spec fn txt_value(props: Seq<(String, String)>, key: Seq<char>) -> Option<String>
    decreases props.len(),
{
    if props.len() == 0 {
        None
    } else if props.last().0@ == key {
        Some(props.last().1)
    } else {
        txt_value(props.drop_last(), key)
    }
}

/// The key of the TXT property that holds the WebSocket path.
pub open spec fn path_key() -> Seq<char> {
    seq!['p']
}

/// The key of the TXT property that holds the dongle's version.
pub open spec fn version_key() -> Seq<char> {
    seq!['v']
}

/// The text is the single character `c`.
fn is_single_char(s: &str, c: char) -> (r: bool)
    ensures
        r == (s@ == seq![c]),
{
    if s.unicode_len() != 1 {
        return false;
    }
    let r = s.get_char(0) == c;
    assert(r ==> s@ =~= seq![c]);
    r
}

/// The path and the version that a resolved service advertises in its TXT
/// properties, given as (key, value) pairs; `None` unless it advertises
/// both. Where a key occurs more than once, its last value counts.
pub fn dongle_txt_fields(props: &Vec<(String, String)>) -> (r: Option<(String, String)>)
    ensures
        match r {
            Some((path, version)) => txt_value(props@, path_key()) == Some(path) && txt_value(
                props@,
                version_key(),
            ) == Some(version),
            None => txt_value(props@, path_key()) is None || txt_value(props@, version_key())
                is None,
        },
{
    let mut path: Option<String> = None;
    let mut version: Option<String> = None;
    let mut i: usize = 0;
    while i < props.len()
        invariant
            i <= props@.len(),
            path == txt_value(props@.subrange(0, i as int), path_key()),
            version == txt_value(props@.subrange(0, i as int), version_key()),
        decreases props@.len() - i,
    {
        let (key, value) = &props[i];
        let ghost prefix = props@.subrange(0, i + 1);
        assert(prefix.drop_last() =~= props@.subrange(0, i as int));
        assert(prefix.last() == props@[i as int]);
        if is_single_char(key.as_str(), 'p') {
            path = Some(value.clone());
            assert(path_key() =~= seq!['p']);
        } else if is_single_char(key.as_str(), 'v') {
            version = Some(value.clone());
        }
        proof {
            assert(path_key() != version_key()) by {
                assert(path_key()[0] != version_key()[0]);
            }
        }
        i = i + 1;
    }
    assert(props@.subrange(0, props@.len() as int) =~= props@);
    match (path, version) {
        (Some(p), Some(v)) => Some((p, v)),
        _ => None,
    }
}

/// How many dongles a discovery collects at most: `max_hosts`, where 0
/// stands for no limit.
pub fn host_limit(max_hosts: usize) -> (r: usize)
    ensures
        r == if max_hosts == 0 {
            usize::MAX
        } else {
            max_hosts
        },
{
    if max_hosts == 0 {
        usize::MAX
    } else {
        max_hosts
    }
}

} // verus!
