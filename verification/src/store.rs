//! Rules of the labeled snapshot store under `<base>/.tidemark/snapshots/`.
//! The store's files are read and written by the caller; this module decides
//! where they live, which labels are acceptable and what a save does.

use vstd::prelude::*;
use crate::error::{ErrorKind, KairnError};
use crate::order::{is_stable_sort_by, key_views, lemma_pick_stable_order, all_below, pick, stable_order};
use crate::text::{concat3, contains_char, contains_str, contains_text, debug_quoted, occurs_at, push_char, push_str, str_debug, string_of};

verus! {

/// `name` joined below `base`, as a relative name joins a Unix path.
pub open spec fn join_path(base: Seq<char>, name: Seq<char>) -> Seq<char> {
    if base.len() == 0 {
        name
    } else if base.last() == '/' {
        base + name
    } else {
        base + seq!['/'] + name
    }
}

/// Joins `name` below `base`.
pub fn join(base: &str, name: &str) -> (r: String)
    ensures
        r@ == join_path(base@, name@),
{
    let mut r = string_of(base);
    let bc = crate::text::chars_of(base);
    if bc.len() > 0 && bc[bc.len() - 1] != '/' {
        push_char(&mut r, '/');
    }
    push_str(&mut r, name);
    proof {
        if base@.len() > 0 {
            assert(bc@.last() == base@.last());
        }
    }
    assert(r@ =~= join_path(base@, name@));
    r
}

/// A labeled snapshot store rooted at `<base>/.tidemark`.
pub struct Store {
    root: String,
}

/// A summary row describing one stored snapshot.
#[derive(Debug, Clone)]
pub struct StoreItem {
    pub label: String,
    pub created_at: String,
    pub entry_count: usize,
    pub tree_digest: String,
}

/// A stored snapshot summary as values.
pub ghost struct StoreItemView {
    pub label: Seq<char>,
    pub created_at: Seq<char>,
    pub entry_count: usize,
    pub tree_digest: Seq<char>,
}

impl View for StoreItem {
    type V = StoreItemView;

    open spec fn view(&self) -> StoreItemView {
        StoreItemView {
            label: self.label@,
            created_at: self.created_at@,
            entry_count: self.entry_count,
            tree_digest: self.tree_digest@,
        }
    }
}

impl StoreItem {
    /// A copy of this row.
    pub fn duplicate(&self) -> (r: StoreItem)
        ensures
            r@ == self@,
    {
        StoreItem {
            label: self.label.clone(),
            created_at: self.created_at.clone(),
            entry_count: self.entry_count,
            tree_digest: self.tree_digest.clone(),
        }
    }
}

/// The rows as values.
pub open spec fn items_view(items: Seq<StoreItem>) -> Seq<StoreItemView> {
    items.map_values(|i: StoreItem| i@)
}

/// The key rows are listed by: when the snapshot was made.
pub open spec fn item_created() -> spec_fn(StoreItemView) -> Seq<char> {
    |i: StoreItemView| i.created_at
}

/// Whether `c` is a control character (Unicode category Cc).
pub open spec fn is_control(c: char) -> bool {
    (c as u32) <= 0x1f || (0x7f <= (c as u32) && (c as u32) <= 0x9f)
}

/// A label names a file in one directory: it is not empty, holds no path
/// separator, no `..` and no control character.
pub open spec fn valid_label(l: Seq<char>) -> bool {
    &&& l.len() > 0
    &&& !l.contains('/')
    &&& !l.contains('\\')
    &&& !contains_text(l, ".."@)
    &&& forall|i: int| 0 <= i < l.len() ==> !is_control(l[i])
}

/// What a save does with the store.
#[derive(Debug, Clone, Copy, PartialEq, Eq, Structural)]
pub enum SaveAction {
    /// Write the manifest under the label.
    Write,
    /// The label already holds this very tree: nothing to do.
    Keep,
}

fn has_control_char(s: &str) -> (r: bool)
    ensures
        r == exists|i: int| 0 <= i < s@.len() && is_control(s@[i]),
{
    let cs = crate::text::chars_of(s);
    for i in 0..cs.len()
        invariant
            cs@ == s@,
            forall|j: int| 0 <= j < i ==> !is_control(cs@[j]),
    {
        let c = cs[i];
        let u = c as u32;
        if u <= 0x1f || (0x7f <= u && u <= 0x9f) {
            assert(is_control(s@[i as int]));
            return true;
        }
    }
    false
}

impl Store {
    /// The directory that holds the store.
    pub closed spec fn root_path(&self) -> Seq<char> {
        self.root@
    }

    /// Construct a store rooted at `<base>/.tidemark`.
    pub fn at(base: &str) -> (s: Store)
        ensures
            s.root_path() == join_path(base@, ".tidemark"@),
    {
        Store { root: join(base, ".tidemark") }
    }

    /// The directory of the store.
    pub fn root(&self) -> (r: &String)
        ensures
            r@ == self.root_path(),
    {
        &self.root
    }

    /// The directory that holds the snapshots.
    pub fn snap_dir(&self) -> (r: String)
        ensures
            r@ == join_path(self.root_path(), "snapshots"@),
    {
        join(self.root.as_str(), "snapshots")
    }

    /// The file that holds the snapshot labeled `label`.
    pub fn path_for(&self, label: &str) -> (r: String)
        ensures
            r@ == join_path(join_path(self.root_path(), "snapshots"@), label@ + ".json"@),
    {
        let dir = self.snap_dir();
        let mut name = string_of(label);
        push_str(&mut name, ".json");
        join(dir.as_str(), name.as_str())
    }

    /// Accept a label only when it is a plain name.
    pub fn validate_label(label: &str) -> (r: Result<(), KairnError>)
        ensures
            r is Ok <==> valid_label(label@),
            r matches Err(e) ==> e.kind == ErrorKind::InvalidInput && e.message@ == "invalid label: "@
                + str_debug(label@),
    {
        let bad = label.is_empty() || contains_char(label, '/') || contains_char(label, '\\')
            || contains_str(label, "..") || has_control_char(label);
        if bad {
            let q = debug_quoted(label);
            let mut msg = string_of("invalid label: ");
            push_str(&mut msg, q.as_str());
            assert(msg@ =~= "invalid label: "@ + str_debug(label@));
            Err(KairnError::invalid(msg))
        } else {
            Ok(())
        }
    }

    /// What saving a manifest whose digest is `new_digest` under `label` does,
    /// given the digest already stored there (when the label is taken and the
    /// save is not forced). An identical tree is a no-op success; a different
    /// tree is a conflict unless forced.
    pub fn save_action(label: &str, force: bool, existing_digest: Option<&String>, new_digest: &String) -> (r: Result<SaveAction, KairnError>)
        ensures
            !valid_label(label@) ==> (r matches Err(e) && e.kind == ErrorKind::InvalidInput
                && e.message@ == "invalid label: "@ + str_debug(label@)),
            valid_label(label@) ==> match (force, existing_digest) {
                (false, Some(d)) => if d@ == new_digest@ {
                    r == Ok::<SaveAction, KairnError>(SaveAction::Keep)
                } else {
                    (r matches Err(e) && e.kind == ErrorKind::Conflict && e.message@ == "label "@
                        + str_debug(label@) + " exists with a different tree (use --force to overwrite)"@)
                },
                _ => r == Ok::<SaveAction, KairnError>(SaveAction::Write),
            },
    {
        match Self::validate_label(label) {
            Err(e) => Err(e),
            Ok(()) => {
                if force {
                    return Ok(SaveAction::Write);
                }
                match existing_digest {
                    None => Ok(SaveAction::Write),
                    Some(d) => {
                        if *d == *new_digest {
                            Ok(SaveAction::Keep)
                        } else {
                            let q = debug_quoted(label);
                            let msg = concat3(
                                "label ",
                                q.as_str(),
                                " exists with a different tree (use --force to overwrite)",
                            );
                            Err(KairnError::conflict(msg))
                        }
                    },
                }
            },
        }
    }

    /// The error for a label with no stored snapshot.
    pub fn label_not_found(label: &str) -> (e: KairnError)
        ensures
            e.kind == ErrorKind::NotFound,
            e.message@ == "no snapshot labeled "@ + str_debug(label@),
    {
        let q = debug_quoted(label);
        let mut msg = string_of("no snapshot labeled ");
        push_str(&mut msg, q.as_str());
        assert(msg@ =~= "no snapshot labeled "@ + str_debug(label@));
        KairnError::not_found(msg)
    }

    /// The label of a snapshot file, from its file name: the stem of a name
    /// whose extension is `json`.
    pub fn label_from_file_name(name: &str) -> (r: Option<String>)
        ensures
            match snapshot_label(name@) {
                Some(l) => r matches Some(s) && s@ == l,
                None => r is None,
            },
    {
        let cs = crate::text::chars_of(name);
        let mut k = cs.len();
        while k > 0 && cs[k - 1] != '.'
            invariant
                cs@ == name@,
                k <= cs@.len(),
                forall|i: int| k <= i < cs@.len() ==> cs@[i] != '.',
            decreases k,
        {
            k = k - 1;
        }
        // `k - 1` is the last dot, if `k > 0`
        if k <= 1 {
            proof {
                if k == 1 {
                    assert(last_dot(name@) == Some(0int)) by {
                        lemma_last_dot(name@, 0);
                    }
                } else {
                    lemma_no_dot(name@);
                }
            }
            return None;
        }
        proof { lemma_last_dot(name@, k - 1); }
        let mut ext = String::new();
        let mut i = k;
        while i < cs.len()
            invariant
                cs@ == name@,
                k <= i <= cs@.len(),
                ext@ == name@.subrange(k as int, i as int),
            decreases cs@.len() - i,
        {
            push_char(&mut ext, cs[i]);
            assert(name@.subrange(k as int, i + 1) =~= name@.subrange(k as int, i as int).push(
                name@[i as int],
            ));
            i = i + 1;
        }
        assert(name@.subrange(k as int, cs@.len() as int) =~= name@.skip(k as int));
        if crate::text::same_text(ext.as_str(), "json") {
            let mut stem = String::new();
            let mut i: usize = 0;
            while i < k - 1
                invariant
                    cs@ == name@,
                    1 < k <= cs@.len(),
                    i <= k - 1,
                    stem@ == name@.take(i as int),
                decreases k - 1 - i,
            {
                push_char(&mut stem, cs[i]);
                assert(name@.take(i + 1) =~= name@.take(i as int).push(name@[i as int]));
                i = i + 1;
            }
            Some(stem)
        } else {
            None
        }
    }

    /// Orders summary rows by creation time, oldest first (stably).
    pub fn sort_items(items: &Vec<StoreItem>) -> (sorted: Vec<StoreItem>)
        ensures
            is_stable_sort_by(items_view(sorted@), items_view(items@), item_created()),
    {
        let mut keys: Vec<String> = Vec::new();
        for i in 0..items.len()
            invariant
                keys@.len() == i,
                forall|t: int| 0 <= t < i ==> keys@[t]@ == items@[t].created_at@,
        {
            keys.push(items[i].created_at.clone());
        }
        let order = stable_order(&keys);
        let mut out: Vec<StoreItem> = Vec::new();
        for j in 0..order.len()
            invariant
                order@.len() == items@.len(),
                all_below(order@, items@.len()),
                out@.len() == j,
                forall|t: int| 0 <= t < j ==> out@[t]@ == items_view(items@)[order@[t] as int],
        {
            out.push(items[order[j]].duplicate());
        }
        proof {
            let iv = items_view(items@);
            assert(items_view(out@) =~= pick(iv, order@));
            lemma_pick_stable_order(iv, item_created(), key_views(keys@), order@);
        }
        out
    }

    /// The label of the most recently created snapshot, from rows listed
    /// oldest first.
    pub fn latest(items: &Vec<StoreItem>) -> (r: Option<String>)
        ensures
            items@.len() == 0 ==> r is None,
            items@.len() > 0 ==> (r matches Some(l) && l@ == items@.last().label@),
    {
        if items.len() == 0 {
            None
        } else {
            Some(items[items.len() - 1].label.clone())
        }
    }
}

/// The last position of a dot in `s`, if any.
pub open spec fn last_dot(s: Seq<char>) -> Option<int> {
    if exists|i: int| 0 <= i < s.len() && s[i] == '.' {
        Some(choose|i: int| 0 <= i < s.len() && s[i] == '.' && forall|j: int| i < j < s.len() ==> s[j] != '.')
    } else {
        None
    }
}

proof fn lemma_last_dot(s: Seq<char>, k: int)
    requires
        0 <= k < s.len(),
        s[k] == '.',
        forall|j: int| k < j < s.len() ==> s[j] != '.',
    ensures
        last_dot(s) == Some(k),
{
    let c = choose|i: int| 0 <= i < s.len() && s[i] == '.' && forall|j: int| i < j < s.len() ==> s[j] != '.';
    if c < k {
        assert(s[k] != '.');
    } else if c > k {
        assert(s[c] != '.');
    }
}

proof fn lemma_no_dot(s: Seq<char>)
    requires
        forall|i: int| 0 <= i < s.len() ==> s[i] != '.',
    ensures
        last_dot(s) is None,
{
}

/// The label a snapshot file name stands for: as std's `Path` reads it, the
/// name has the extension `json` (its last dot is not its first character),
/// and the label is what comes before that dot.
pub open spec fn snapshot_label(name: Seq<char>) -> Option<Seq<char>> {
    match last_dot(name) {
        Some(k) => if k > 0 && name.skip(k + 1) == "json"@ {
            Some(name.take(k))
        } else {
            None
        },
        None => None,
    }
}

/// Law: the file a label is stored in names that label again. For every
/// label the store accepts, the file name `<label>.json` reads back as the
/// label when the store lists its snapshots.
pub proof fn law_stored_file_names_its_label(label: Seq<char>)
    requires
        valid_label(label),
    ensures
        snapshot_label(label + ".json"@) == Some(label),
{
    reveal_strlit(".json");
    reveal_strlit("json");
    let s = label + ".json"@;
    let k = label.len() as int;
    assert(s[k] == '.');
    assert forall|j: int| k < j < s.len() implies s[j] != '.' by {
        assert(s[j] == ".json"@[j - k]);
    }
    lemma_last_dot(s, k);
    assert(s.skip(k + 1) =~= "json"@);
    assert(s.take(k) =~= label);
}

/// Law: a label is accepted exactly when it is not empty and none of its
/// characters is `/`, `\\` or a control character (U+0000 to U+001F, U+007F to
/// U+009F), and no two neighbouring characters are both `.`. Nothing else is
/// asked of it: any other first character, a digit included, is fine.
pub proof fn law_label_rules(l: Seq<char>)
    ensures
        valid_label(l) <==> (l.len() > 0 && forall|i: int|
            #![trigger l[i]]
            0 <= i < l.len() ==> {
                &&& l[i] != '/'
                &&& l[i] != '\\'
                &&& (l[i] as u32) > 0x1f
                &&& !(0x7f <= (l[i] as u32) && (l[i] as u32) <= 0x9f)
                &&& !(i + 1 < l.len() && l[i] == '.' && l[i + 1] == '.')
            }),
{
    reveal_strlit("..");
    let dots = ".."@;
    assert(dots.len() == 2 && dots[0] == '.' && dots[1] == '.');
    assert forall|i: int| #[trigger] occurs_at(l, dots, i) <==> (0 <= i && i + 1 < l.len() && l[i] == '.'
        && l[i + 1] == '.') by {
        if 0 <= i && i + 1 < l.len() && l[i] == '.' && l[i + 1] == '.' {
            assert(l.subrange(i, i + 2) =~= dots);
        }
        if occurs_at(l, dots, i) {
            assert(l.subrange(i, i + 2)[0] == l[i]);
            assert(l.subrange(i, i + 2)[1] == l[i + 1]);
        }
    }
    if valid_label(l) {
        assert forall|i: int| #![trigger l[i]] 0 <= i < l.len() implies {
            &&& l[i] != '/'
            &&& l[i] != '\\'
            &&& (l[i] as u32) > 0x1f
            &&& !(0x7f <= (l[i] as u32) && (l[i] as u32) <= 0x9f)
            &&& !(i + 1 < l.len() && l[i] == '.' && l[i + 1] == '.')
        } by {
            if l[i] == '/' {
                assert(l.contains('/'));
            }
            if l[i] == '\\' {
                assert(l.contains('\\'));
            }
            assert(!is_control(l[i]));
            if i + 1 < l.len() && l[i] == '.' && l[i + 1] == '.' {
                assert(occurs_at(l, dots, i));
            }
        }
    }
    if l.len() > 0 && forall|i: int|
        #![trigger l[i]]
        0 <= i < l.len() ==> {
            &&& l[i] != '/'
            &&& l[i] != '\\'
            &&& (l[i] as u32) > 0x1f
            &&& !(0x7f <= (l[i] as u32) && (l[i] as u32) <= 0x9f)
            &&& !(i + 1 < l.len() && l[i] == '.' && l[i + 1] == '.')
        } {
        if l.contains('/') {
            let i = choose|i: int| 0 <= i < l.len() && l[i] == '/';
            assert(l[i] == '/');
        }
        if l.contains('\\') {
            let i = choose|i: int| 0 <= i < l.len() && l[i] == '\\';
            assert(l[i] == '\\');
        }
        if contains_text(l, dots) {
            let i = choose|i: int| occurs_at(l, dots, i);
            assert(l[i] == '.');
        }
        assert forall|i: int| #![trigger l[i]] 0 <= i < l.len() implies !is_control(l[i]) by {
            assert(l[i] != '/');
        }
    }
}

} // verus!
