//! Persistent properties that are kept as files of their own, one for each.
use vstd::prelude::*;
use crate::name_order::{sort_by_name, sorts};
use crate::persistent_prop::{Pair, PersistentProperty};
use crate::text::{has_prefix, same_text, text_starts};

verus! {

/// The file in which persistent properties are kept, in the directory of
/// persistent properties.
pub const PROTO_FILE_NAME: &'static str = "persistent_properties";

/// Whether a file in the directory of persistent properties is a property
/// that is kept as a file of its own.
pub open spec fn is_property_file(name: Seq<char>) -> bool {
    name != PROTO_FILE_NAME@ && !text_starts(name, "."@)
}

/// Whether a file in the directory of persistent properties is a property
/// that is kept as a file of its own.
pub fn keeps_property(name: &str) -> (r: bool)
    ensures
        r == is_property_file(name@),
{
    !same_text(name, PROTO_FILE_NAME) && !has_prefix(name, ".")
}

/// A file in the directory of persistent properties.
#[derive(Debug, Clone, PartialEq, Eq)]
pub struct LegacyFile {
    pub name: String,
    /// What is in it, where it could be read as text.
    pub contents: Option<String>,
}

/// The properties that the files hold, in the order of the files.
pub open spec fn kept_properties(files: Seq<LegacyFile>) -> Seq<Pair>
    decreases files.len(),
{
    if files.len() == 0 {
        Seq::empty()
    } else {
        let before = kept_properties(files.drop_last());
        let file = files.last();
        match file.contents {
            Some(value) => if is_property_file(file.name@) {
                before.push(Pair { name: file.name@, value: value@ })
            } else {
                before
            },
            None => before,
        }
    }
}

/// What the properties of a list are.
pub open spec fn pair_views(list: Seq<PersistentProperty>) -> Seq<Pair> {
    list.map_values(|p: PersistentProperty| p@)
}

/// The properties that the files hold, sorted by name.
pub fn legacy_list_props(files: &Vec<LegacyFile>) -> (r: Vec<PersistentProperty>)
    ensures
        exists|list: Seq<PersistentProperty>| #[trigger]
            sorts(r@, list) && pair_views(list) == kept_properties(files@),
{
    let mut props: Vec<PersistentProperty> = Vec::new();
    let mut i: usize = 0;
    proof {
        assert(files@.take(0) =~= Seq::<LegacyFile>::empty());
        assert(pair_views(props@) =~= Seq::<Pair>::empty());
    }
    while i < files.len()
        invariant
            i <= files@.len(),
            pair_views(props@) == kept_properties(files@.take(i as int)),
        decreases files@.len() - i,
    {
        proof {
            let next = files@.take(i + 1);
            assert(next.drop_last() =~= files@.take(i as int));
            assert(next.last() == files@[i as int]);
        }
        if let Some(value) = &files[i].contents {
            if keeps_property(files[i].name.as_str()) {
                let prop = PersistentProperty {
                    name: files[i].name.clone(),
                    value: value.clone(),
                };
                proof {
                    assert(pair_views(props@.push(prop)) =~= pair_views(props@).push(prop@));
                }
                props.push(prop);
            }
        }
        i = i + 1;
    }
    proof {
        assert(files@.take(files@.len() as int) =~= files@);
    }
    sort_by_name(props)
}

/// The property `p` is kept in a file of `files`: the file has its name, which
/// is not that of the file of all properties and does not start with a dot, and
/// its value as contents.
pub open spec fn keeps(files: Seq<LegacyFile>, i: int, p: Pair) -> bool {
    &&& 0 <= i < files.len()
    &&& files[i].name@ == p.name
    &&& (files[i].contents matches Some(value) && value@ == p.value)
    &&& p.name != "persistent_properties"@
    &&& !text_starts(p.name, "."@)
}

/// The properties that are listed are exactly those that are kept in files.
pub proof fn law_kept_properties(files: Seq<LegacyFile>, p: Pair)
    ensures
        kept_properties(files).contains(p) <==> exists|i: int| #[trigger] keeps(files, i, p),
        kept_properties(files).len() <= files.len(),
    decreases files.len(),
{
    let all = kept_properties(files);
    if files.len() > 0 {
        let before = files.drop_last();
        let n = files.len() - 1;
        law_kept_properties(before, p);
        let old = kept_properties(before);
        if all != old {
            assert(all == old.push(all.last()));
            assert(all[old.len() as int] == all.last());
            assert(old.contains(p) ==> all.contains(p)) by {
                if old.contains(p) {
                    let k = choose|k: int| 0 <= k < old.len() && old[k] == p;
                    assert(all[k] == p);
                }
            }
        }
        if exists|i: int| #[trigger] keeps(before, i, p) {
            let i = choose|i: int| #[trigger] keeps(before, i, p);
            assert(keeps(files, i, p));
        }
        if exists|i: int| #[trigger] keeps(files, i, p) {
            let i = choose|i: int| #[trigger] keeps(files, i, p);
            if i < n {
                assert(keeps(before, i, p));
            } else {
                assert(all == old.push(p));
                assert(all[old.len() as int] == p);
            }
        }
        if all.contains(p) && !old.contains(p) {
            assert(keeps(files, n, p));
        }
    }
}

} // verus!
