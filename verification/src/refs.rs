//! What a ref names: `@` (the current tree), a manifest file, or a store label.

use vstd::prelude::*;
use crate::store::{Store, valid_label};
use crate::text::{contains_char, same_text, string_of};

verus! {

/// The thing a ref names.
#[derive(Debug, Clone)]
pub enum RefTarget {
    /// The tree as it is now.
    CurrentTree,
    /// A manifest file at this path.
    ManifestFile(String),
    /// A store label; only when the store has no such label, a manifest file
    /// of that name in the current directory, if one exists (see
    /// [`bare_ref_choice`]).
    Label(String),
}

/// Resolve a ref. Precedence: `@` is the current tree; a path-like ref (one
/// that holds a path separator) is a manifest file; a bare name is a store
/// label first, so that a same-named file never silently shadows a label.
pub fn resolve(r: &str) -> (t: RefTarget)
    ensures
        r@ == "@"@ ==> t is CurrentTree,
        r@ != "@"@ && (r@.contains('/') || r@.contains('\\')) ==> (t matches RefTarget::ManifestFile(p)
            && p@ == r@),
        r@ != "@"@ && !r@.contains('/') && !r@.contains('\\') ==> (t matches RefTarget::Label(l)
            && l@ == r@),
{
    if same_text(r, "@") {
        RefTarget::CurrentTree
    } else if contains_char(r, '/') || contains_char(r, '\\') {
        RefTarget::ManifestFile(string_of(r))
    } else {
        RefTarget::Label(string_of(r))
    }
}

/// Where a bare name is read from.
#[derive(Debug, Clone, Copy, PartialEq, Eq, Structural)]
pub enum BareRefSource {
    /// The stored snapshot under that label.
    StoredLabel,
    /// The manifest file of that name in the current directory.
    CurrentDirFile,
    /// Nowhere: the outcome is the error of loading the label.
    LabelError,
}

/// The store holds a snapshot under `label`: the label is one the store
/// accepts and its file is present.
pub open spec fn label_is_stored(label: Seq<char>, label_file_present: bool) -> bool {
    valid_label(label) && label_file_present
}

/// The source a bare name resolves to. A stored label wins, and when its
/// snapshot cannot be read that error stands: a same-named file in the
/// current directory is read only when no such label exists.
pub open spec fn bare_ref_source(label_stored: bool, label_loaded: bool, file_in_cwd: bool) -> BareRefSource {
    if label_stored {
        if label_loaded {
            BareRefSource::StoredLabel
        } else {
            BareRefSource::LabelError
        }
    } else if file_in_cwd {
        BareRefSource::CurrentDirFile
    } else {
        BareRefSource::LabelError
    }
}

/// Decide where the bare name `label` is read from, given whether the
/// store's file for it is present, whether loading it succeeded, and whether
/// a file of that name exists in the current directory.
pub fn bare_ref_choice(label: &str, label_file_present: bool, label_loaded: bool, file_in_cwd: bool) -> (c: BareRefSource)
    ensures
        c == bare_ref_source(label_is_stored(label@, label_file_present), label_loaded, file_in_cwd),
{
    let stored = Store::validate_label(label).is_ok() && label_file_present;
    if stored {
        if label_loaded {
            BareRefSource::StoredLabel
        } else {
            BareRefSource::LabelError
        }
    } else if file_in_cwd {
        BareRefSource::CurrentDirFile
    } else {
        BareRefSource::LabelError
    }
}

/// Law: a bare name is read from the current directory exactly when the
/// store holds no snapshot under it (the label is not one the store accepts,
/// or its file is absent) and such a file exists; it is read from the store
/// exactly when the stored snapshot loads; otherwise the label's error is the
/// answer, also when a same-named file exists.
pub proof fn law_bare_name_rules(label: Seq<char>, label_file_present: bool, label_loaded: bool, file_in_cwd: bool)
    ensures
        (bare_ref_source(label_is_stored(label, label_file_present), label_loaded, file_in_cwd)
            == BareRefSource::CurrentDirFile) <==> (!(valid_label(label) && label_file_present)
            && file_in_cwd),
        (bare_ref_source(label_is_stored(label, label_file_present), label_loaded, file_in_cwd)
            == BareRefSource::StoredLabel) <==> (valid_label(label) && label_file_present && label_loaded),
        (valid_label(label) && label_file_present && !label_loaded) ==> bare_ref_source(
            label_is_stored(label, label_file_present),
            label_loaded,
            file_in_cwd,
        ) == BareRefSource::LabelError,
{
}

} // verus!
