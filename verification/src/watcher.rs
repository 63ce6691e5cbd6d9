//! Mapping raw filesystem changes in the registry directory to logical
//! registry-change events.

use vstd::prelude::*;
use vstd::string::StrSliceExecFns;

use crate::model::is_meta_name;
use crate::strutil::first_match_idx;
use crate::strutil::lemma_first_match_agrees;
use crate::strutil::lemma_no_match_agrees;
use crate::strutil::match_at;
use crate::strutil::{find_char, str_ends_with};

verus! {

/// Events emitted for the registry directory.
#[derive(Debug, PartialEq, Eq)]
pub enum WatchEvent {
    /// An environment's meta file or a status file of its was created or
    /// modified.
    EnvironmentChanged(String),
    /// An environment's meta file or a status file of its was removed.
    EnvironmentRemoved(String),
}

/// The mathematical value of a `WatchEvent`.
#[verifier::ext_equal]
pub enum WatchEventView {
    EnvironmentChanged(Seq<char>),
    EnvironmentRemoved(Seq<char>),
}

impl View for WatchEvent {
    type V = WatchEventView;

    open spec fn view(&self) -> WatchEventView {
        match self {
            WatchEvent::EnvironmentChanged(id) => WatchEventView::EnvironmentChanged(id@),
            WatchEvent::EnvironmentRemoved(id) => WatchEventView::EnvironmentRemoved(id@),
        }
    }
}

impl Clone for WatchEvent {
    fn clone(&self) -> (r: Self)
        ensures
            r@ == self@,
    {
        match self {
            WatchEvent::EnvironmentChanged(id) => WatchEvent::EnvironmentChanged(id.clone()),
            WatchEvent::EnvironmentRemoved(id) => WatchEvent::EnvironmentRemoved(id.clone()),
        }
    }
}

/// The kind of a raw filesystem change, as the logical mapping reads it.
#[derive(Clone, Copy, Debug, PartialEq, Eq, Structural)]
pub enum ChangeKind {
    Create,
    Modify,
    Remove,
    Other,
}

/// The environment id a changed filename points at. A status filename
/// (`<id>.<unit>.status`, or dot-prefixed in the older convention) yields
/// the hex id before its first inner dot; a bare all-hex filename is a meta
/// file and yields itself; anything else yields nothing.
pub open spec fn extract_hash_id_spec(fname: Seq<char>) -> Option<Seq<char>> {
    if ".status"@.is_suffix_of(fname) {
        let rest0 = fname.take(fname.len() - ".status"@.len());
        let rest = if rest0.len() > 0 && rest0[0] == '.' {
            rest0.drop_first()
        } else {
            rest0
        };
        let i = first_match_idx(rest, seq!['.']);
        if 0 <= i < rest.len() {
            let hash = rest.take(i);
            if is_meta_name(hash) {
                Some(hash)
            } else {
                None
            }
        } else {
            None
        }
    } else if is_meta_name(fname) {
        Some(fname)
    } else {
        None
    }
}

/// Extract the environment id from a registry filename.
pub fn extract_hash_id(fname: &str) -> (r: Option<String>)
    ensures
        match r {
            Some(id) => extract_hash_id_spec(fname@) == Some(id@),
            None => extract_hash_id_spec(fname@) is None,
        },
{
    let n = fname.unicode_len();
    if str_ends_with(fname, ".status") {
        let suffix_len = ".status".unicode_len();
        let rest0 = fname.substring_char(0, n - suffix_len);
        proof {
            assert(rest0@ =~= fname@.take(fname@.len() - ".status"@.len()));
        }
        let r0n = rest0.unicode_len();
        let rest: &str = if r0n > 0 && rest0.get_char(0) == '.' {
            let t = rest0.substring_char(1, r0n);
            proof {
                assert(t@ =~= rest0@.drop_first());
            }
            t
        } else {
            rest0
        };
        let rn = rest.unicode_len();
        match find_char(rest, '.') {
            Some(i) => {
                proof {
                    assert(match_at(rest@, seq!['.'], i as int)) by {
                        assert(rest@.subrange(i as int, i + 1) =~= seq!['.']);
                    }
                    assert forall|j: int| 0 <= j < i implies !match_at(rest@, seq!['.'], j) by {
                        if match_at(rest@, seq!['.'], j) {
                            assert(rest@.subrange(j, j + 1)[0] == rest@[j]);
                        }
                    }
                    lemma_first_match_agrees(rest@, seq!['.'], i as int);
                }
                let hash = rest.substring_char(0, i);
                proof {
                    assert(hash@ =~= rest@.take(i as int));
                }
                if crate::model::is_meta_file(hash) {
                    Some(hash.to_owned())
                } else {
                    None
                }
            },
            None => {
                proof {
                    assert forall|j: int| !match_at(rest@, seq!['.'], j) by {
                        if 0 <= j < rest@.len() && match_at(rest@, seq!['.'], j) {
                            assert(rest@.subrange(j, j + 1)[0] == rest@[j]);
                        }
                    }
                    lemma_no_match_agrees(rest@, seq!['.']);
                }
                None
            },
        }
    } else {
        if crate::model::is_meta_file(fname) {
            Some(fname.to_owned())
        } else {
            None
        }
    }
}

/// The logical event a raw change maps to: a removal of a recognized
/// registry filename signals that the environment went away, a creation or
/// modification signals that it changed, and anything else is ignored.
pub open spec fn watch_event_spec(kind: ChangeKind, fname: Seq<char>) -> Option<WatchEventView> {
    match extract_hash_id_spec(fname) {
        Some(id) => match kind {
            ChangeKind::Remove => Some(WatchEventView::EnvironmentRemoved(id)),
            ChangeKind::Create => Some(WatchEventView::EnvironmentChanged(id)),
            ChangeKind::Modify => Some(WatchEventView::EnvironmentChanged(id)),
            ChangeKind::Other => None,
        },
        None => None,
    }
}

/// Map one raw filesystem change to the registry event it signals, if any.
pub fn watch_event_for(kind: ChangeKind, fname: &str) -> (r: Option<WatchEvent>)
    ensures
        match r {
            Some(e) => watch_event_spec(kind, fname@) == Some(e@),
            None => watch_event_spec(kind, fname@) is None,
        },
{
    match extract_hash_id(fname) {
        Some(id) => match kind {
            ChangeKind::Remove => Some(WatchEvent::EnvironmentRemoved(id)),
            ChangeKind::Create => Some(WatchEvent::EnvironmentChanged(id)),
            ChangeKind::Modify => Some(WatchEvent::EnvironmentChanged(id)),
            ChangeKind::Other => None,
        },
        None => None,
    }
}

} // verus!
