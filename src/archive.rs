use vstd::prelude::*;
use crate::text::{has_prefix, has_suffix, is_prefix, is_suffix, same_text};

verus! {

/// Byte boundary on which the resource table's data starts.
pub const RESOURCE_ALIGNMENT: u16 = 4;

/// Name of the entry that holds the binary manifest.
pub open spec fn manifest_entry() -> Seq<char> {
    "AndroidManifest.xml"@
}

/// Name of the entry that holds the compiled resource table.
pub open spec fn resource_entry() -> Seq<char> {
    "resources.arsc"@
}

/// An entry of the older signing scheme: under `META-INF/`, ending in `.SF`
/// or in `RSA`.
pub open spec fn is_legacy_signature(name: Seq<char>) -> bool {
    is_prefix("META-INF/"@, name) && (is_suffix(".SF"@, name) || is_suffix("RSA"@, name))
}

/// What becomes of one entry of the source container.
#[derive(PartialEq, Eq, Structural, Clone, Copy, Debug)]
pub enum EntryAction {
    /// Left out of the output.
    Skip,
    /// Written uncompressed, its data aligned to `RESOURCE_ALIGNMENT` bytes.
    StoreAligned,
    /// Replaced by the patched manifest.
    Replace,
    /// Copied as it stands, compressed bytes and metadata included.
    CopyRaw,
}

/// The action that the full rewrite takes on an entry named `name`.
pub open spec fn action_for(name: Seq<char>, edit: bool) -> EntryAction {
    if is_legacy_signature(name) {
        EntryAction::Skip
    } else if name == resource_entry() {
        EntryAction::StoreAligned
    } else if name == manifest_entry() && edit {
        EntryAction::Replace
    } else {
        EntryAction::CopyRaw
    }
}

/// The names of a container's entries, in entry order.
pub open spec fn names_view(names: Seq<String>) -> Seq<Seq<char>> {
    names.map_values(|n: String| n@)
}

/// Some entry is a legacy signature entry.
pub open spec fn any_legacy_signature(names: Seq<Seq<char>>) -> bool {
    exists|i: int| 0 <= i < names.len() && is_legacy_signature(#[trigger] names[i])
}

/// Index of the first entry named `n`, or -1.
pub open spec fn first_index(names: Seq<Seq<char>>, n: Seq<char>) -> int
    decreases names.len(),
{
    if names.len() == 0 {
        -1
    } else {
        let k = first_index(names.drop_last(), n);
        if k >= 0 {
            k
        } else if names.last() == n {
            names.len() - 1
        } else {
            -1
        }
    }
}

/// An entry added after the copied source entries on the fast path: the
/// entry at `source` again, with `action` applied.
#[derive(PartialEq, Eq, Structural, Clone, Copy, Debug)]
pub struct PatchEntry {
    pub source: usize,
    pub action: EntryAction,
}

/// How the output container is put together.
#[derive(Debug)]
pub enum Plan {
    /// Every source entry copied as it stands, then these entries.
    Fast(Vec<PatchEntry>),
    /// One action for each source entry, in entry order.
    Full(Vec<EntryAction>),
}

/// The patch entries of the fast path: the edited manifest when an edit is
/// asked for, then the realigned resource table, each when present.
pub open spec fn fast_patches(names: Seq<Seq<char>>, edit: bool) -> Seq<PatchEntry> {
    let m = first_index(names, manifest_entry());
    let r = first_index(names, resource_entry());
    let a = if edit && m >= 0 {
        seq![PatchEntry { source: m as usize, action: EntryAction::Replace }]
    } else {
        Seq::<PatchEntry>::empty()
    };
    let b = if r >= 0 {
        seq![PatchEntry { source: r as usize, action: EntryAction::StoreAligned }]
    } else {
        Seq::<PatchEntry>::empty()
    };
    a + b
}

/// Entry names of the output of the full rewrite.
pub open spec fn full_output(names: Seq<Seq<char>>, edit: bool) -> Seq<Seq<char>> {
    names.filter(|n: Seq<char>| action_for(n, edit) != EntryAction::Skip)
}

/// Entry names of the output of the fast path.
pub open spec fn fast_output(names: Seq<Seq<char>>, patches: Seq<PatchEntry>) -> Seq<Seq<char>> {
    names + patches.map_values(|p: PatchEntry| names[p.source as int])
}

/// Whether an entry name belongs to the older signing scheme.
pub fn is_v1sign(filename: &str) -> (r: bool)
    ensures
        r == is_legacy_signature(filename@),
{
    has_prefix(filename, "META-INF/") && (has_suffix(filename, ".SF") || has_suffix(
        filename,
        "RSA",
    ))
}

/// The action that the full rewrite takes on the entry `name`; `edit` tells
/// whether the manifest is being patched.
pub fn entry_action(name: &str, edit: bool) -> (r: EntryAction)
    ensures
        r == action_for(name@, edit),
{
    if is_v1sign(name) {
        EntryAction::Skip
    } else if same_text(name, "resources.arsc") {
        EntryAction::StoreAligned
    } else if edit && same_text(name, "AndroidManifest.xml") {
        EntryAction::Replace
    } else {
        EntryAction::CopyRaw
    }
}

/// Whether any entry belongs to the older signing scheme.
pub fn has_legacy_signature(names: &Vec<String>) -> (r: bool)
    ensures
        r == any_legacy_signature(names_view(names@)),
{
    let mut i: usize = 0;
    while i < names.len()
        invariant
            i <= names@.len(),
            forall|k: int| 0 <= k < i ==> !is_legacy_signature(#[trigger] names@[k]@),
        decreases names@.len() - i,
    {
        if is_v1sign(names[i].as_str()) {
            assert(names_view(names@)[i as int] == names@[i as int]@);
            return true;
        }
        i = i + 1;
    }
    assert forall|k: int| 0 <= k < names@.len() implies !is_legacy_signature(
        #[trigger] names_view(names@)[k],
    ) by {
        assert(names_view(names@)[k] == names@[k]@);
    }
    false
}

proof fn lemma_first_index_push(names: Seq<Seq<char>>, x: Seq<char>, n: Seq<char>)
    ensures
        first_index(names.push(x), n) == if first_index(names, n) >= 0 {
            first_index(names, n)
        } else if x == n {
            names.len() as int
        } else {
            -1
        },
{
    assert(names.push(x).drop_last() =~= names);
}

/// Index of the first entry named `n`, if any.
pub fn find_entry(names: &Vec<String>, n: &str) -> (r: Option<usize>)
    ensures
        match r {
            Some(i) => first_index(names_view(names@), n@) == i as int,
            None => first_index(names_view(names@), n@) == -1,
        },
{
    let mut i: usize = 0;
    while i < names.len()
        invariant
            i <= names@.len(),
            first_index(names_view(names@).subrange(0, i as int), n@) == -1,
        decreases names@.len() - i,
    {
        proof {
            assert(names_view(names@).subrange(0, i + 1) =~= names_view(names@).subrange(
                0,
                i as int,
            ).push(names@[i as int]@));
            lemma_first_index_push(names_view(names@).subrange(0, i as int), names@[i as int]@, n@);
        }
        if same_text(names[i].as_str(), n) {
            assert(names_view(names@).subrange(0, names@.len() as int) =~= names_view(names@));
            proof {
                lemma_first_index_prefix(names_view(names@), i as int + 1, n@);
            }
            return Some(i);
        }
        i = i + 1;
    }
    assert(names_view(names@).subrange(0, names@.len() as int) =~= names_view(names@));
    None
}

/// A first occurrence within a prefix is the first occurrence in the whole.
proof fn lemma_first_index_prefix(names: Seq<Seq<char>>, j: int, n: Seq<char>)
    requires
        0 <= j <= names.len(),
        first_index(names.subrange(0, j), n) >= 0,
    ensures
        first_index(names, n) == first_index(names.subrange(0, j), n),
    decreases names.len() - j,
{
    if j < names.len() {
        assert(names.subrange(0, j + 1) =~= names.subrange(0, j).push(names[j]));
        lemma_first_index_push(names.subrange(0, j), names[j], n);
        lemma_first_index_prefix(names, j + 1, n);
    } else {
        assert(names.subrange(0, j) =~= names);
    }
}

/// Decides how the output container is built from the names of the source
/// entries: the full rewrite where a legacy signature entry is present, the
/// fast path otherwise.
pub fn plan_reassembly(names: &Vec<String>, edit: bool) -> (r: Plan)
    ensures
        any_legacy_signature(names_view(names@)) ==> match r {
            Plan::Full(actions) => actions@.len() == names@.len() && forall|i: int|
                0 <= i < names@.len() ==> #[trigger] actions@[i] == action_for(names@[i]@, edit),
            Plan::Fast(_) => false,
        },
        !any_legacy_signature(names_view(names@)) ==> r is Fast && r->Fast_0@ == fast_patches(names_view(names@), edit),
{
    if has_legacy_signature(names) {
        let mut actions: Vec<EntryAction> = Vec::new();
        let mut i: usize = 0;
        while i < names.len()
            invariant
                i <= names@.len(),
                actions@.len() == i,
                forall|k: int| 0 <= k < i ==> #[trigger] actions@[k] == action_for(names@[k]@, edit),
            decreases names@.len() - i,
        {
            actions.push(entry_action(names[i].as_str(), edit));
            i = i + 1;
        }
        Plan::Full(actions)
    } else {
        let mut patches: Vec<PatchEntry> = Vec::new();
        if edit {
            if let Some(m) = find_entry(names, "AndroidManifest.xml") {
                patches.push(PatchEntry { source: m, action: EntryAction::Replace });
            }
        }
        if let Some(res) = find_entry(names, "resources.arsc") {
            patches.push(PatchEntry { source: res, action: EntryAction::StoreAligned });
        }
        assert(patches@ =~= fast_patches(names_view(names@), edit));
        Plan::Fast(patches)
    }
}

/// The first occurrence of a name is an entry of that name.
pub proof fn lemma_first_index_names(names: Seq<Seq<char>>, n: Seq<char>)
    ensures
        -1 <= first_index(names, n) < names.len(),
        first_index(names, n) >= 0 ==> names[first_index(names, n)] == n,
        first_index(names, n) == -1 ==> forall|i: int| 0 <= i < names.len() ==> names[i] != n,
    decreases names.len(),
{
    if names.len() > 0 {
        lemma_first_index_names(names.drop_last(), n);
        assert forall|i: int| 0 <= i < names.len() - 1 implies names.drop_last()[i] == names[i] by {}
    }
}

/// The full rewrite leaves every legacy signature entry out: no name of its
/// output belongs to the older signing scheme, and every other source entry
/// is kept.
pub proof fn lemma_full_rewrite_strips_signatures(names: Seq<Seq<char>>, edit: bool)
    ensures
        forall|i: int|
            0 <= i < full_output(names, edit).len() ==> !is_legacy_signature(
                #[trigger] full_output(names, edit)[i],
            ),
        forall|i: int|
            0 <= i < names.len() && !is_legacy_signature(names[i]) ==> full_output(
                names,
                edit,
            ).contains(#[trigger] names[i]),
{
    let pred = |n: Seq<char>| action_for(n, edit) != EntryAction::Skip;
    assert forall|i: int| 0 <= i < full_output(names, edit).len() implies !is_legacy_signature(
        #[trigger] full_output(names, edit)[i],
    ) by {
        names.lemma_filter_pred(pred, i);
    }
    assert forall|i: int| 0 <= i < names.len() && !is_legacy_signature(names[i]) implies full_output(
        names,
        edit,
    ).contains(#[trigger] names[i]) by {
        names.lemma_filter_contains(pred, i);
    }
}

/// On either path the resource table is written uncompressed and aligned:
/// the full rewrite gives every entry of that name `StoreAligned`, and the
/// fast path appends it with `StoreAligned`.
pub proof fn lemma_resource_table_stored_aligned(names: Seq<Seq<char>>, edit: bool)
    ensures
        forall|i: int|
            0 <= i < names.len() && names[i] == resource_entry() ==> action_for(
                #[trigger] names[i],
                edit,
            ) == EntryAction::StoreAligned,
        first_index(names, resource_entry()) >= 0 ==> fast_patches(names, edit).last() == (
        PatchEntry {
            source: first_index(names, resource_entry()) as usize,
            action: EntryAction::StoreAligned,
        }),
{
    reveal_strlit("resources.arsc");
    reveal_strlit("META-INF/");
    assert(!is_prefix("META-INF/"@, resource_entry())) by {
        if is_prefix("META-INF/"@, resource_entry()) {
            assert(resource_entry().subrange(0, 9)[0] == "META-INF/"@[0]);
        }
    }
}

/// On the fast path the edited manifest (when an edit is asked for) and the
/// resource table appear twice: the source entry stays where it was, and
/// the last entry of that name is the corrected one appended after all
/// source entries.
pub proof fn lemma_fast_path_last_entry_wins(names: Seq<Seq<char>>, edit: bool, n: Seq<char>)
    requires
        names.len() <= usize::MAX,
        n == resource_entry() || (edit && n == manifest_entry()),
        first_index(names, n) >= 0,
    ensures
        ({
            let patches = fast_patches(names, edit);
            let out = fast_output(names, patches);
            &&& out[first_index(names, n)] == n
            &&& exists|j: int|
                names.len() <= j < out.len() && #[trigger] out[j] == n && patches[j
                    - names.len()].source == first_index(names, n) && (forall|k: int|
                    j < k < out.len() ==> out[k] != n) && (patches[j - names.len()].action
                    == if n == resource_entry() {
                    EntryAction::StoreAligned
                } else {
                    EntryAction::Replace
                })
        }),
{
    reveal_strlit("resources.arsc");
    reveal_strlit("AndroidManifest.xml");
    assert(manifest_entry() != resource_entry()) by {
        assert(manifest_entry().len() != resource_entry().len());
    }
    lemma_first_index_names(names, manifest_entry());
    lemma_first_index_names(names, resource_entry());
    let patches = fast_patches(names, edit);
    let out = fast_output(names, patches);
    let tail = patches.map_values(|p: PatchEntry| names[p.source as int]);
    assert(out =~= names + tail);
    assert forall|k: int| 0 <= k < patches.len() implies #[trigger] tail[k] == names[patches[k].source as int] by {}
    assert(out[first_index(names, n)] == n);
    if n == resource_entry() {
        let j = names.len() + patches.len() - 1;
        assert(patches[patches.len() - 1].source == first_index(names, n));
        assert(out[j] == tail[patches.len() - 1]);
        assert(out[j] == n);
    } else {
        let j = names.len() as int;
        assert(patches[0].source == first_index(names, n));
        assert(out[j] == tail[0]);
        assert(out[j] == n);
        assert forall|k: int| j < k < out.len() implies out[k] != n by {
            assert(out[k] == tail[k - names.len()]);
        }
    }
}

} // verus!
