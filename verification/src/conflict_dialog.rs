//! The dialog that asks what to do where a destination is taken: what the two
//! entries are, which answers there are, and the digests of either side.

use crate::calendar::{
    civil_at, civil_seconds, date_text, lemma_shown_date_reads_back, spelled, write_date, Timestamp,
};
use crate::jobs::{ConflictPolicy, ConflictResolution, ConflictScope};
use crate::sizes::{byte_count_text, write_byte_count};
use crate::text::{chars_of, find, find_char, lemma_find, same_text, trim, trimmed};
use crate::vpath::{
    child_text, is_entry_name, lemma_entry_of_a_directory, name_text, parent_text, VPath,
};
use vstd::prelude::*;

verus! {

/// The hexadecimal BLAKE3 digest of some bytes.
pub uninterp spec fn blake3_hex(bytes: Seq<u8>) -> Seq<char>;

/// The bytes that a hasher has taken.
pub uninterp spec fn hashed_bytes(hasher: blake3::Hasher) -> Seq<u8>;

/// Whether a hasher makes plain digests of its bytes from the start: without a
/// key, without a context and without an input offset.
pub uninterp spec fn hashes_plainly(hasher: blake3::Hasher) -> bool;

/// The state of a BLAKE3 digest in the making.
#[verifier::external_type_specification]
#[verifier::external_body]
pub struct ExHasher(blake3::Hasher);

/// `blake3::Hasher::new`: a hasher of plain digests that has taken nothing.
#[verifier::external_body]
fn new_hasher() -> (hasher: blake3::Hasher)
    ensures
        hashed_bytes(hasher) == Seq::<u8>::empty(),
        hashes_plainly(hasher),
{
    blake3::Hasher::new()
}

/// `blake3::Hasher::update`: the hasher takes further bytes. One with an input
/// offset is not asked: it takes a limited number of them.
#[verifier::external_body]
fn take_bytes(hasher: &mut blake3::Hasher, bytes: &[u8])
    requires
        hashes_plainly(*old(hasher)),
    ensures
        hashed_bytes(*final(hasher)) == hashed_bytes(*old(hasher)) + bytes@,
        hashes_plainly(*final(hasher)),
{
    hasher.update(bytes);
}

/// `blake3::Hasher::finalize`: the digest of the bytes that the hasher has
/// taken, in hexadecimal. The result is a function of those bytes.
#[verifier::external_body]
fn digest_hex(hasher: &blake3::Hasher) -> (hex: String)
    requires
        hashes_plainly(*hasher),
    ensures
        hex@ == blake3_hex(hashed_bytes(*hasher)),
{
    hasher.finalize().to_hex().to_string()
}

/// How many bytes of a file are read at a time.
pub const HASH_CHUNK_BYTES: usize = 1048576;

/// The digest of a file that is read piece by piece.
pub struct FileDigest {
    pub hasher: blake3::Hasher,
}

impl FileDigest {
    /// The bytes read so far.
    pub open spec fn bytes(self) -> Seq<u8> {
        hashed_bytes(self.hasher)
    }

    pub open spec fn wf(self) -> bool {
        hashes_plainly(self.hasher)
    }

    pub fn new() -> (digest: Self)
        ensures
            digest.wf(),
            digest.bytes() == Seq::<u8>::empty(),
    {
        FileDigest { hasher: new_hasher() }
    }

    /// Takes the first `n` bytes of `buf`, which a read filled. Returns
    /// whether the file goes on: a read of nothing is its end.
    pub fn feed(&mut self, buf: &Vec<u8>, n: usize) -> (goes_on: bool)
        requires
            old(self).wf(),
            n <= buf@.len(),
        ensures
            final(self).wf(),
            goes_on == (n > 0),
            final(self).bytes() == old(self).bytes() + buf@.take(n as int),
    {
        let (read, _) = buf.as_slice().split_at(n);
        assert(read@ =~= buf@.take(n as int));
        if n == 0 {
            assert(self.bytes() + buf@.take(0) =~= self.bytes());
            return false;
        }
        take_bytes(&mut self.hasher, read);
        true
    }

    /// The digest of what was read.
    pub fn finish(&self) -> (hex: String)
        requires
            self.wf(),
        ensures
            hex@ == blake3_hex(self.bytes()),
    {
        digest_hex(&self.hasher)
    }
}

/// All pieces, one behind the other.
pub open spec fn joined_pieces(pieces: Seq<Seq<u8>>) -> Seq<u8>
    decreases pieces.len(),
{
    if pieces.len() == 0 {
        Seq::empty()
    } else {
        joined_pieces(pieces.drop_last()) + pieces.last()
    }
}

/// How a file is cut into pieces does not matter: reading one more piece
/// gives the digest of all the pieces' bytes.
pub proof fn lemma_digest_of_pieces(before: FileDigest, after: FileDigest, pieces: Seq<Seq<u8>>)
    requires
        pieces.len() > 0,
        before.bytes() == joined_pieces(pieces.drop_last()),
        after.bytes() == before.bytes() + pieces.last(),
    ensures
        blake3_hex(after.bytes()) == blake3_hex(joined_pieces(pieces)),
{
}

/// A side of a conflict.
#[derive(Clone, Copy, Debug, PartialEq, Eq, Structural)]
pub enum Side {
    Source,
    Dest,
}

/// How far the digest of a side is.
#[derive(Debug, PartialEq, Eq)]
pub enum HashState {
    Idle,
    Hashing,
    /// The digest, in hexadecimal.
    Done(String),
    Failed(String),
}

/// How making a digest ended.
#[derive(Debug, PartialEq, Eq)]
pub enum HashOutcome {
    Done(String),
    Failed(String),
    Dropped,
}

/// What is known of an entry.
#[derive(Clone, Copy, Debug, PartialEq, Eq, Structural)]
pub struct Metadata {
    pub size: u64,
    pub modified: Option<Timestamp>,
}

/// A conflict that awaits an answer.
#[derive(Debug, PartialEq, Eq)]
pub struct ConflictPrompt {
    pub source: VPath,
    pub dest: VPath,
    pub source_meta: Metadata,
    pub dest_meta: Metadata,
}

/// What the job is told: the answer, or to skip where no one was there to
/// give one.
pub fn resolve_reply(reply: Option<ConflictResolution>) -> (resolution: ConflictResolution)
    ensures
        resolution == (match reply {
            Some(r) => r,
            None => ConflictResolution {
                policy: ConflictPolicy::Skip,
                scope: ConflictScope::ThisOnly,
                alternate: None,
            },
        }),
{
    match reply {
        Some(r) => r,
        None => ConflictResolution::once(ConflictPolicy::Skip),
    }
}

/// What a new name for the destination leads to: the directory and the name to
/// join, or why there is nothing to join.
pub open spec fn rename_parts_of(dest: Seq<char>, new_name: Seq<char>) -> Result<
    (Seq<char>, Seq<char>),
    Seq<char>,
> {
    let name = trimmed(new_name);
    if name.len() == 0 {
        Err("Enter a name for the new destination."@)
    } else if find(name, '/', 0) < name.len() {
        Err("The name can't contain \"/\"."@)
    } else if parent_text(dest) is None {
        Err("The destination has no parent directory to rename within."@)
    } else {
        Ok((parent_text(dest)->0, name))
    }
}

/// What the user is told of a name that is refused for a reason.
pub open spec fn name_refusal(name: Seq<char>, reason: Seq<char>) -> Seq<char> {
    "\u{201c}"@ + name + "\u{201d} isn't a valid name: "@ + reason
}

/// The directory and the name to join for a new name of the destination.
pub fn rename_parts(dest: &VPath, new_name: &str) -> (r: Result<(VPath, String), String>)
    ensures
        match r {
            Ok((dir, name)) => rename_parts_of(dest.path@, new_name@) == Ok::<
                (Seq<char>, Seq<char>),
                Seq<char>,
            >((dir.path@, name@)),
            Err(message) => rename_parts_of(dest.path@, new_name@) == Err::<
                (Seq<char>, Seq<char>),
                Seq<char>,
            >(message@),
        },
{
    let name = trim(new_name);
    let chars = chars_of(name.as_str());
    if chars.len() == 0 {
        return Err("Enter a name for the new destination.".to_owned());
    }
    if find_char(&chars, '/', 0) < chars.len() {
        return Err("The name can't contain \"/\".".to_owned());
    }
    match dest.parent() {
        Some(parent) => Ok((parent, name)),
        None => Err("The destination has no parent directory to rename within.".to_owned()),
    }
}

/// The path of a new name, given what joining its parts came to: the path, or
/// the reason for which the name is refused.
pub fn rename_given(dest: &VPath, new_name: &str, joined: Result<VPath, String>) -> (r: Result<
    VPath,
    String,
>)
    ensures
        match (rename_parts_of(dest.path@, new_name@), joined) {
            (Err(message), _) => r is Err && r->Err_0@ == message,
            (Ok(_), Ok(path)) => r == Ok::<VPath, String>(path),
            (Ok(parts), Err(reason)) => r is Err && r->Err_0@ == name_refusal(parts.1, reason@),
        },
{
    match rename_parts(dest, new_name) {
        Err(message) => Err(message),
        Ok((_, name)) => match joined {
            Ok(path) => Ok(path),
            Err(reason) => {
                let mut message = "\u{201c}".to_owned();
                message.append(name.as_str());
                message.append("\u{201d} isn't a valid name: ");
                message.append(reason.as_str());
                Err(message)
            },
        },
    }
}

/// The parts of a new name, joined. A plain name can be joined.
pub open spec fn parts_joined(
    dest: Seq<char>,
    new_name: Seq<char>,
    joined: Result<VPath, String>,
) -> bool {
    match (rename_parts_of(dest, new_name), joined) {
        (Ok((dir, name)), Ok(path)) => path.path@ == child_text(dir, name),
        (Ok((_, name)), Err(reason)) => !is_entry_name(name) && reason@
            == "not a plain file name"@,
        (Err(message), Err(reason)) => reason@ == message,
        (Err(_), Ok(_)) => false,
    }
}

fn join_parts(dest: &VPath, new_name: &str) -> (joined: Result<VPath, String>)
    ensures
        parts_joined(dest.path@, new_name@, joined),
{
    match rename_parts(dest, new_name) {
        Ok((dir, name)) => match dir.join(name.as_str()) {
            Some(path) => Ok(path),
            None => Err("not a plain file name".to_owned()),
        },
        Err(message) => Err(message),
    }
}

/// The path of a new name beside the destination. A plain name is taken. Of any
/// other it is stated what its path is where it is taken, and how the message
/// begins where it is refused.
pub fn rename_alternate(dest: &VPath, new_name: &str) -> (r: Result<VPath, String>)
    ensures
        match rename_parts_of(dest.path@, new_name@) {
            Err(message) => r is Err && r->Err_0@ == message,
            Ok((dir, name)) => match r {
                Ok(path) => path.path@ == child_text(dir, name),
                Err(message) => {
                    &&& !is_entry_name(name)
                    &&& name_refusal(name, Seq::empty()).is_prefix_of(message@)
                },
            },
        },
{
    let joined = join_parts(dest, new_name);
    let ghost given = joined;
    let r = rename_given(dest, new_name, joined);
    proof {
        if let (Ok(parts), Err(reason)) = (rename_parts_of(dest.path@, new_name@), given) {
            let begin = name_refusal(parts.1, Seq::empty());
            assert(name_refusal(parts.1, reason@) =~= begin + reason@);
        }
    }
    r
}

/// What a key does in the dialog.
#[derive(Clone, Copy, Debug, PartialEq, Eq, Structural)]
pub enum ConflictAction {
    Answer(ConflictPolicy, ConflictScope),
    Rename,
    Hash(Side),
    CycleFocus,
}

/// The action that a keystroke stands for.
pub open spec fn conflict_action(keys: Seq<char>) -> Option<ConflictAction> {
    if keys == "alt-y"@ {
        Some(ConflictAction::Answer(ConflictPolicy::Overwrite, ConflictScope::ThisOnly))
    } else if keys == "alt-a"@ {
        Some(ConflictAction::Answer(ConflictPolicy::Overwrite, ConflictScope::AllRemaining))
    } else if keys == "alt-n"@ || keys == "escape"@ {
        Some(ConflictAction::Answer(ConflictPolicy::Skip, ConflictScope::ThisOnly))
    } else if keys == "alt-s"@ {
        Some(ConflictAction::Answer(ConflictPolicy::Skip, ConflictScope::AllRemaining))
    } else if keys == "alt-r"@ {
        Some(ConflictAction::Rename)
    } else if keys == "alt-o"@ {
        Some(ConflictAction::Answer(ConflictPolicy::OverwriteIfOlder, ConflictScope::ThisOnly))
    } else if keys == "alt-shift-o"@ {
        Some(ConflictAction::Answer(ConflictPolicy::OverwriteIfOlder, ConflictScope::AllRemaining))
    } else if keys == "alt-d"@ {
        Some(
            ConflictAction::Answer(
                ConflictPolicy::OverwriteIfDifferentSize,
                ConflictScope::ThisOnly,
            ),
        )
    } else if keys == "alt-shift-d"@ {
        Some(
            ConflictAction::Answer(
                ConflictPolicy::OverwriteIfDifferentSize,
                ConflictScope::AllRemaining,
            ),
        )
    } else if keys == "alt-u"@ {
        Some(ConflictAction::Answer(ConflictPolicy::AutoRename, ConflictScope::ThisOnly))
    } else if keys == "alt-shift-u"@ {
        Some(ConflictAction::Answer(ConflictPolicy::AutoRename, ConflictScope::AllRemaining))
    } else if keys == "alt-b"@ {
        Some(ConflictAction::Answer(ConflictPolicy::Abort, ConflictScope::ThisOnly))
    } else if keys == "alt-shift-b"@ {
        Some(ConflictAction::Answer(ConflictPolicy::Abort, ConflictScope::AllRemaining))
    } else if keys == "alt-h"@ {
        Some(ConflictAction::Hash(Side::Source))
    } else if keys == "alt-shift-h"@ {
        Some(ConflictAction::Hash(Side::Dest))
    } else if keys == "tab"@ || keys == "shift-tab"@ {
        Some(ConflictAction::CycleFocus)
    } else {
        None
    }
}

/// The keys that the dialog is bound to: the action that a keystroke stands
/// for.
pub fn bind_conflict_dialog_keys(keys: &str) -> (action: Option<ConflictAction>)
    ensures
        action == conflict_action(keys@),
{
    if same_text(keys, "alt-y") {
        Some(ConflictAction::Answer(ConflictPolicy::Overwrite, ConflictScope::ThisOnly))
    } else if same_text(keys, "alt-a") {
        Some(ConflictAction::Answer(ConflictPolicy::Overwrite, ConflictScope::AllRemaining))
    } else if same_text(keys, "alt-n") || same_text(keys, "escape") {
        Some(ConflictAction::Answer(ConflictPolicy::Skip, ConflictScope::ThisOnly))
    } else if same_text(keys, "alt-s") {
        Some(ConflictAction::Answer(ConflictPolicy::Skip, ConflictScope::AllRemaining))
    } else if same_text(keys, "alt-r") {
        Some(ConflictAction::Rename)
    } else if same_text(keys, "alt-o") {
        Some(ConflictAction::Answer(ConflictPolicy::OverwriteIfOlder, ConflictScope::ThisOnly))
    } else if same_text(keys, "alt-shift-o") {
        Some(ConflictAction::Answer(ConflictPolicy::OverwriteIfOlder, ConflictScope::AllRemaining))
    } else if same_text(keys, "alt-d") {
        Some(
            ConflictAction::Answer(
                ConflictPolicy::OverwriteIfDifferentSize,
                ConflictScope::ThisOnly,
            ),
        )
    } else if same_text(keys, "alt-shift-d") {
        Some(
            ConflictAction::Answer(
                ConflictPolicy::OverwriteIfDifferentSize,
                ConflictScope::AllRemaining,
            ),
        )
    } else if same_text(keys, "alt-u") {
        Some(ConflictAction::Answer(ConflictPolicy::AutoRename, ConflictScope::ThisOnly))
    } else if same_text(keys, "alt-shift-u") {
        Some(ConflictAction::Answer(ConflictPolicy::AutoRename, ConflictScope::AllRemaining))
    } else if same_text(keys, "alt-b") {
        Some(ConflictAction::Answer(ConflictPolicy::Abort, ConflictScope::ThisOnly))
    } else if same_text(keys, "alt-shift-b") {
        Some(ConflictAction::Answer(ConflictPolicy::Abort, ConflictScope::AllRemaining))
    } else if same_text(keys, "alt-h") {
        Some(ConflictAction::Hash(Side::Source))
    } else if same_text(keys, "alt-shift-h") {
        Some(ConflictAction::Hash(Side::Dest))
    } else if same_text(keys, "tab") || same_text(keys, "shift-tab") {
        Some(ConflictAction::CycleFocus)
    } else {
        None
    }
}

/// The keys of each policy, for this conflict and for all that follow.
pub open spec fn policy_keys(policy: ConflictPolicy, scope: ConflictScope) -> Seq<char> {
    match (policy, scope) {
        (ConflictPolicy::Overwrite, ConflictScope::ThisOnly) => "alt-y"@,
        (ConflictPolicy::Overwrite, ConflictScope::AllRemaining) => "alt-a"@,
        (ConflictPolicy::Skip, ConflictScope::ThisOnly) => "alt-n"@,
        (ConflictPolicy::Skip, ConflictScope::AllRemaining) => "alt-s"@,
        (ConflictPolicy::OverwriteIfOlder, ConflictScope::ThisOnly) => "alt-o"@,
        (ConflictPolicy::OverwriteIfOlder, ConflictScope::AllRemaining) => "alt-shift-o"@,
        (ConflictPolicy::OverwriteIfDifferentSize, ConflictScope::ThisOnly) => "alt-d"@,
        (ConflictPolicy::OverwriteIfDifferentSize, ConflictScope::AllRemaining) => "alt-shift-d"@,
        (ConflictPolicy::AutoRename, ConflictScope::ThisOnly) => "alt-u"@,
        (ConflictPolicy::AutoRename, ConflictScope::AllRemaining) => "alt-shift-u"@,
        (ConflictPolicy::Abort, ConflictScope::ThisOnly) => "alt-b"@,
        (ConflictPolicy::Abort, ConflictScope::AllRemaining) => "alt-shift-b"@,
        (ConflictPolicy::RenameTarget, _) => "alt-r"@,
    }
}

/// Every policy can be chosen from the keyboard, for this conflict and for
/// all that follow; a new name only for this conflict.
pub proof fn lemma_every_policy_has_its_keys(policy: ConflictPolicy, scope: ConflictScope)
    ensures
        conflict_action(policy_keys(policy, scope)) == Some(
            if policy == ConflictPolicy::RenameTarget {
                ConflictAction::Rename
            } else {
                ConflictAction::Answer(policy, scope)
            },
        ),
{
    reveal_strlit("alt-y");
    reveal_strlit("alt-a");
    reveal_strlit("alt-n");
    reveal_strlit("escape");
    reveal_strlit("alt-s");
    reveal_strlit("alt-r");
    reveal_strlit("alt-o");
    reveal_strlit("alt-shift-o");
    reveal_strlit("alt-d");
    reveal_strlit("alt-shift-d");
    reveal_strlit("alt-u");
    reveal_strlit("alt-shift-u");
    reveal_strlit("alt-b");
    reveal_strlit("alt-shift-b");
    assert("alt-y"@.len() == 5 && "alt-y"@[4] == 'y');
    assert("alt-a"@.len() == 5 && "alt-a"@[4] == 'a');
    assert("alt-n"@.len() == 5 && "alt-n"@[4] == 'n');
    assert("escape"@.len() == 6);
    assert("alt-s"@.len() == 5 && "alt-s"@[4] == 's');
    assert("alt-r"@.len() == 5 && "alt-r"@[4] == 'r');
    assert("alt-o"@.len() == 5 && "alt-o"@[4] == 'o');
    assert("alt-d"@.len() == 5 && "alt-d"@[4] == 'd');
    assert("alt-u"@.len() == 5 && "alt-u"@[4] == 'u');
    assert("alt-b"@.len() == 5 && "alt-b"@[4] == 'b');
    assert("alt-shift-o"@.len() == 11 && "alt-shift-o"@[10] == 'o');
    assert("alt-shift-d"@.len() == 11 && "alt-shift-d"@[10] == 'd');
    assert("alt-shift-u"@.len() == 11 && "alt-shift-u"@[10] == 'u');
    assert("alt-shift-b"@.len() == 11 && "alt-shift-b"@[10] == 'b');
}

/// A row of the dialog: a policy, the hints of its keys and what a click on
/// either hint does.
#[derive(Clone, Copy, Debug, PartialEq, Eq)]
pub struct PolicyRow {
    pub name: &'static str,
    pub this_hint: &'static str,
    pub this_action: ConflictAction,
    pub all_hint: Option<&'static str>,
    pub all_action: Option<ConflictAction>,
}

/// What a policy's row says.
pub open spec fn is_row_of(row: PolicyRow, policy: ConflictPolicy) -> bool {
    &&& match policy {
        ConflictPolicy::Overwrite => row.name@ == "Overwrite"@ && row.this_hint@ == "Alt+Y"@
            && row.all_hint is Some && row.all_hint->0@ == "Alt+A (all)"@,
        ConflictPolicy::Skip => row.name@ == "Skip"@ && row.this_hint@ == "Alt+N / Esc"@
            && row.all_hint is Some && row.all_hint->0@ == "Alt+S (all)"@,
        ConflictPolicy::OverwriteIfOlder => row.name@ == "Overwrite if older"@ && row.this_hint@
            == "Alt+O"@ && row.all_hint is Some && row.all_hint->0@ == "Alt+Shift+O (all)"@,
        ConflictPolicy::OverwriteIfDifferentSize => row.name@ == "Overwrite if different size"@
            && row.this_hint@ == "Alt+D"@ && row.all_hint is Some && row.all_hint->0@
            == "Alt+Shift+D (all)"@,
        ConflictPolicy::AutoRename => row.name@ == "Auto-rename"@ && row.this_hint@ == "Alt+U"@
            && row.all_hint is Some && row.all_hint->0@ == "Alt+Shift+U (all)"@,
        ConflictPolicy::Abort => row.name@ == "Abort job"@ && row.this_hint@ == "Alt+B"@
            && row.all_hint is Some && row.all_hint->0@ == "Alt+Shift+B (all)"@,
        ConflictPolicy::RenameTarget => row.name@ == "Rename target (this conflict only)"@
            && row.this_hint@ == "Alt+R"@ && row.all_hint is None,
    }
    &&& row.this_action == (if policy == ConflictPolicy::RenameTarget {
        ConflictAction::Rename
    } else {
        ConflictAction::Answer(policy, ConflictScope::ThisOnly)
    })
    &&& row.all_action == (if policy == ConflictPolicy::RenameTarget {
        None
    } else {
        Some(ConflictAction::Answer(policy, ConflictScope::AllRemaining))
    })
}

/// The policies in the order of their rows.
pub open spec fn policies_shown() -> Seq<ConflictPolicy> {
    seq![
        ConflictPolicy::Overwrite,
        ConflictPolicy::Skip,
        ConflictPolicy::OverwriteIfOlder,
        ConflictPolicy::OverwriteIfDifferentSize,
        ConflictPolicy::AutoRename,
        ConflictPolicy::Abort,
        ConflictPolicy::RenameTarget,
    ]
}

/// The row of a policy.
pub fn policy_row(policy: ConflictPolicy) -> (row: PolicyRow)
    ensures
        is_row_of(row, policy),
{
    let (name, this_hint, all_hint) = match policy {
        ConflictPolicy::Overwrite => ("Overwrite", "Alt+Y", Some("Alt+A (all)")),
        ConflictPolicy::Skip => ("Skip", "Alt+N / Esc", Some("Alt+S (all)")),
        ConflictPolicy::OverwriteIfOlder => (
            "Overwrite if older",
            "Alt+O",
            Some("Alt+Shift+O (all)"),
        ),
        ConflictPolicy::OverwriteIfDifferentSize => (
            "Overwrite if different size",
            "Alt+D",
            Some("Alt+Shift+D (all)"),
        ),
        ConflictPolicy::AutoRename => ("Auto-rename", "Alt+U", Some("Alt+Shift+U (all)")),
        ConflictPolicy::Abort => ("Abort job", "Alt+B", Some("Alt+Shift+B (all)")),
        ConflictPolicy::RenameTarget => ("Rename target (this conflict only)", "Alt+R", None),
    };
    let (this_action, all_action) = match policy {
        ConflictPolicy::RenameTarget => (ConflictAction::Rename, None),
        _ => (
            ConflictAction::Answer(policy, ConflictScope::ThisOnly),
            Some(ConflictAction::Answer(policy, ConflictScope::AllRemaining)),
        ),
    };
    PolicyRow { name, this_hint, this_action, all_hint, all_action }
}

/// The line that tells how far a digest is.
pub open spec fn hash_text(label: Seq<char>, state: HashState) -> Seq<char> {
    match state {
        HashState::Idle => label + ": (not computed)"@,
        HashState::Hashing => label + ": computing\u{2026}"@,
        HashState::Done(hex) => label + ": "@ + hex@,
        HashState::Failed(message) => label + ": failed \u{2014} "@ + message@,
    }
}

pub fn hash_line(label: &str, state: &HashState) -> (text: String)
    ensures
        text@ == hash_text(label@, *state),
{
    let mut text = label.to_owned();
    match state {
        HashState::Idle => {
            text.append(": (not computed)");
        },
        HashState::Hashing => {
            text.append(": computing\u{2026}");
        },
        HashState::Done(hex) => {
            text.append(": ");
            text.append(hex.as_str());
        },
        HashState::Failed(message) => {
            text.append(": failed \u{2014} ");
            text.append(message.as_str());
        },
    }
    text
}

/// The size and the modification time of an entry, as the dialog shows them.
pub fn metadata_lines(meta: &Metadata) -> (lines: (String, String))
    ensures
        lines.0@ == byte_count_text(meta.size as nat),
        lines.1@ == date_text(
            match meta.modified {
                Some(t) => t.secs as int,
                None => 0,
            },
        ),
{
    let mut size = String::new();
    write_byte_count(&mut size, meta.size);
    assert(size@ =~= byte_count_text(meta.size as nat));
    let mut modified = String::new();
    let secs: i64 = match meta.modified {
        Some(t) => t.secs,
        None => 0,
    };
    write_date(&mut modified, secs);
    assert(modified@ =~= date_text(secs as int));
    (size, modified)
}

/// What has the keyboard in the dialog.
#[derive(Clone, Copy, Debug, PartialEq, Eq, Structural)]
pub enum Focus {
    Root,
    RenameField,
}

#[derive(Debug, PartialEq, Eq)]
pub struct ConflictDialogState {
    pub prompt: ConflictPrompt,
    /// Whether the answer has been given.
    pub answered: bool,
    pub source_hash: HashState,
    pub dest_hash: HashState,
    /// Whether the field for a new name is shown.
    pub renaming: bool,
    /// That field's text, once there is one.
    pub rename_input: Option<String>,
    pub rename_error: Option<String>,
}

impl ConflictDialogState {
    pub fn new(prompt: ConflictPrompt) -> (state: Self)
        ensures
            state == (ConflictDialogState {
                prompt,
                answered: false,
                source_hash: HashState::Idle,
                dest_hash: HashState::Idle,
                renaming: false,
                rename_input: None,
                rename_error: None,
            }),
    {
        ConflictDialogState {
            prompt,
            answered: false,
            source_hash: HashState::Idle,
            dest_hash: HashState::Idle,
            renaming: false,
            rename_input: None,
            rename_error: None,
        }
    }

    fn answer_with(&mut self, resolution: ConflictResolution) -> (sent: Option<ConflictResolution>)
        ensures
            sent == (if old(self).answered {
                None
            } else {
                Some(resolution)
            }),
            *final(self) == (ConflictDialogState { answered: true, ..*old(self) }),
    {
        if self.answered {
            return None;
        }
        self.answered = true;
        Some(resolution)
    }

    /// A policy was chosen. Returns the answer to send; a dialog answers only
    /// once.
    pub fn answer(&mut self, policy: ConflictPolicy, scope: ConflictScope) -> (sent: Option<
        ConflictResolution,
    >)
        ensures
            sent == (if old(self).answered {
                None
            } else {
                Some(ConflictResolution { policy, scope, alternate: None })
            }),
            *final(self) == (ConflictDialogState { answered: true, ..*old(self) }),
    {
        self.answer_with(ConflictResolution { policy, scope, alternate: None })
    }

    /// Shows the field for a new name, at first with the destination's name.
    pub fn start_rename(&mut self)
        ensures
            rename_started(*old(self), *final(self)),
    {
        if self.rename_input.is_none() {
            let name = match self.prompt.dest.file_name() {
                Some(name) => name,
                None => String::new(),
            };
            assert(name@ =~= dest_name(*self));
            self.rename_input = Some(name);
        }
        self.renaming = true;
        self.rename_error = None;
    }

    /// What joining the parts of the new name comes to, where there is a field.
    pub fn rename_joined(&self) -> (joined: Option<Result<VPath, String>>)
        ensures
            match joined {
                Some(joined) => self.rename_input is Some && parts_joined(
                    self.prompt.dest.path@,
                    self.rename_input->0@,
                    joined,
                ),
                None => self.rename_input is None,
            },
    {
        match &self.rename_input {
            Some(text) => Some(join_parts(&self.prompt.dest, text.as_str())),
            None => None,
        }
    }

    /// Enter in the field for a new name, with what joining its parts came to.
    /// Returns the answer to send; where the name is refused the dialog shows
    /// why.
    pub fn confirm_rename(&mut self, joined: Result<VPath, String>) -> (sent: Option<
        ConflictResolution,
    >)
        ensures
            match old(self).rename_input {
                None => sent is None && *final(self) == *old(self),
                Some(text) => match (rename_parts_of(old(self).prompt.dest.path@, text@), joined) {
                    (Ok(_), Ok(path)) => {
                        &&& *final(self) == (ConflictDialogState { answered: true, ..*old(self) })
                        &&& sent == (if old(self).answered {
                            None
                        } else {
                            Some(
                                ConflictResolution {
                                    policy: ConflictPolicy::RenameTarget,
                                    scope: ConflictScope::ThisOnly,
                                    alternate: Some(path),
                                },
                            )
                        })
                    },
                    (Ok(parts), Err(reason)) => sent is None && rename_refused(
                        *old(self),
                        *final(self),
                        name_refusal(parts.1, reason@),
                    ),
                    (Err(message), _) => sent is None && rename_refused(
                        *old(self),
                        *final(self),
                        message,
                    ),
                },
            },
    {
        let answer = match &self.rename_input {
            Some(text) => rename_given(&self.prompt.dest, text.as_str(), joined),
            None => {
                return None;
            },
        };
        match answer {
            Ok(path) => self.answer_with(ConflictResolution::rename_to(path)),
            Err(message) => {
                self.rename_error = Some(message);
                None
            },
        }
    }

    /// Tab or Shift+Tab: what gets the keyboard, where there are two.
    pub fn cycle_focus(&self, root_focused: bool) -> (focus: Option<Focus>)
        ensures
            focus == (if self.rename_input is None {
                None
            } else if root_focused {
                Some(Focus::RenameField)
            } else {
                Some(Focus::Root)
            }),
    {
        if self.rename_input.is_none() {
            None
        } else if root_focused {
            Some(Focus::RenameField)
        } else {
            Some(Focus::Root)
        }
    }

    /// A digest of a side was asked for. Returns the path to read, unless it
    /// is being read already.
    pub fn start_hash(&mut self, side: Side) -> (path: Option<VPath>)
        ensures
            hash_started(*old(self), *final(self), side, path),
    {
        match side {
            Side::Source => {
                if let HashState::Hashing = &self.source_hash {
                    return None;
                }
                self.source_hash = HashState::Hashing;
                Some(self.prompt.source.clone())
            },
            Side::Dest => {
                if let HashState::Hashing = &self.dest_hash {
                    return None;
                }
                self.dest_hash = HashState::Hashing;
                Some(self.prompt.dest.clone())
            },
        }
    }

    /// Making a digest of a side ended.
    pub fn hash_ended(&mut self, side: Side, outcome: HashOutcome)
        ensures
            match side {
                Side::Source => hash_after(outcome, final(self).source_hash) && *final(self) == (
                ConflictDialogState { source_hash: final(self).source_hash, ..*old(self) }),
                Side::Dest => hash_after(outcome, final(self).dest_hash) && *final(self) == (
                ConflictDialogState { dest_hash: final(self).dest_hash, ..*old(self) }),
            },
    {
        let state = match outcome {
            HashOutcome::Done(hex) => HashState::Done(hex),
            HashOutcome::Failed(message) => HashState::Failed(message),
            HashOutcome::Dropped => HashState::Failed(
                "the hashing task was dropped before completing".to_owned(),
            ),
        };
        match side {
            Side::Source => {
                self.source_hash = state;
            },
            Side::Dest => {
                self.dest_hash = state;
            },
        }
    }

    /// The dialog's headline.
    pub fn title(&self) -> (text: String)
        ensures
            is_title_of(*self, text@),
    {
        let name = match self.prompt.dest.file_name() {
            Some(name) => name,
            None => String::new(),
        };
        assert(name@ =~= dest_name(*self));
        let mut text = "\u{201c}".to_owned();
        text.append(name.as_str());
        text.append("\u{201d} already exists");
        text
    }

    /// A side as the dialog shows it.
    pub fn side_view(&self, side: Side) -> (view: SideView)
        ensures
            is_view_of_side(*self, side, view),
    {
        let (path, meta, hash) = match side {
            Side::Source => (&self.prompt.source, &self.prompt.source_meta, &self.source_hash),
            Side::Dest => (&self.prompt.dest, &self.prompt.dest_meta, &self.dest_hash),
        };
        let (heading, hash_label) = match side {
            Side::Source => ("Source", "Hash source (Alt+H)"),
            Side::Dest => ("Destination", "Hash destination (Alt+Shift+H)"),
        };
        let (size, modified) = metadata_lines(meta);
        let mut size_line = "Size: ".to_owned();
        size_line.append(size.as_str());
        let mut modified_line = "Modified: ".to_owned();
        modified_line.append(modified.as_str());
        SideView {
            heading,
            path: path.to_uri(),
            size: size_line,
            modified: modified_line,
            hash: hash_line("Hash", hash),
            hash_label,
            hash_action: ConflictAction::Hash(side),
        }
    }

    /// The dialog as it is shown.
    pub fn render(&self) -> (view: ConflictView)
        ensures
            is_title_of(*self, view.title@),
            is_view_of_side(*self, Side::Source, view.source),
            is_view_of_side(*self, Side::Dest, view.dest),
            view.policies@.len() == policies_shown().len(),
            forall|i: int|
                0 <= i < policies_shown().len() ==> is_row_of(
                    #[trigger] view.policies@[i],
                    policies_shown()[i],
                ),
            match view.rename {
                Some(field) => {
                    &&& self.renaming && self.rename_input == Some(field.name)
                    &&& field.label@ == "New name (Enter to confirm):"@
                    &&& field.error == self.rename_error
                },
                None => !self.renaming || self.rename_input is None,
            },
            view.hint@ == "Tab/Shift+Tab moves focus \u{2022} Enter confirms a rename"@,
    {
        let rename = match &self.rename_input {
            Some(name) if self.renaming => Some(
                RenameView {
                    label: "New name (Enter to confirm):",
                    name: name.clone(),
                    error: self.rename_error.clone(),
                },
            ),
            _ => None,
        };
        ConflictView {
            title: self.title(),
            source: self.side_view(Side::Source),
            dest: self.side_view(Side::Dest),
            policies: vec![
                policy_row(ConflictPolicy::Overwrite),
                policy_row(ConflictPolicy::Skip),
                policy_row(ConflictPolicy::OverwriteIfOlder),
                policy_row(ConflictPolicy::OverwriteIfDifferentSize),
                policy_row(ConflictPolicy::AutoRename),
                policy_row(ConflictPolicy::Abort),
                policy_row(ConflictPolicy::RenameTarget),
            ],
            rename,
            hint: "Tab/Shift+Tab moves focus \u{2022} Enter confirms a rename",
        }
    }

    /// Does what a key or a click asks for. Returns what is left to do outside
    /// the dialog.
    pub fn perform(&mut self, action: ConflictAction, root_focused: bool) -> (step: Option<
        ConflictStep,
    >)
        ensures
            match action {
                ConflictAction::Answer(policy, scope) => {
                    &&& step == (if old(self).answered {
                        None
                    } else {
                        Some(
                            ConflictStep::Send(
                                ConflictResolution { policy, scope, alternate: None },
                            ),
                        )
                    })
                    &&& *final(self) == (ConflictDialogState { answered: true, ..*old(self) })
                },
                ConflictAction::Rename => step == Some(ConflictStep::Focus(Focus::RenameField))
                    && rename_started(*old(self), *final(self)),
                ConflictAction::Hash(side) => match step {
                    Some(ConflictStep::Read(read, path)) => read == side && hash_started(
                        *old(self),
                        *final(self),
                        side,
                        Some(path),
                    ),
                    Some(_) => false,
                    None => hash_started(*old(self), *final(self), side, None),
                },
                ConflictAction::CycleFocus => {
                    &&& *final(self) == *old(self)
                    &&& step == (if old(self).rename_input is None {
                        None
                    } else if root_focused {
                        Some(ConflictStep::Focus(Focus::RenameField))
                    } else {
                        Some(ConflictStep::Focus(Focus::Root))
                    })
                },
            },
    {
        match action {
            ConflictAction::Answer(policy, scope) => match self.answer(policy, scope) {
                Some(resolution) => Some(ConflictStep::Send(resolution)),
                None => None,
            },
            ConflictAction::Rename => {
                self.start_rename();
                Some(ConflictStep::Focus(Focus::RenameField))
            },
            ConflictAction::Hash(side) => match self.start_hash(side) {
                Some(path) => Some(ConflictStep::Read(side, path)),
                None => None,
            },
            ConflictAction::CycleFocus => match self.cycle_focus(root_focused) {
                Some(focus) => Some(ConflictStep::Focus(focus)),
                None => None,
            },
        }
    }
}

/// What is left to do outside the dialog after an action.
#[derive(Debug, PartialEq, Eq)]
pub enum ConflictStep {
    /// Send the answer and close.
    Send(ConflictResolution),
    /// Read a side's file for its digest.
    Read(Side, VPath),
    /// Give the keyboard away.
    Focus(Focus),
}

/// A side as the dialog shows it.
#[derive(Debug, PartialEq, Eq)]
pub struct SideView {
    pub heading: &'static str,
    pub path: String,
    pub size: String,
    pub modified: String,
    pub hash: String,
    pub hash_label: &'static str,
    pub hash_action: ConflictAction,
}

/// The field for a new name as the dialog shows it.
#[derive(Debug, PartialEq, Eq)]
pub struct RenameView {
    pub label: &'static str,
    pub name: String,
    pub error: Option<String>,
}

/// The dialog as it is shown.
#[derive(Debug, PartialEq, Eq)]
pub struct ConflictView {
    pub title: String,
    pub source: SideView,
    pub dest: SideView,
    pub policies: Vec<PolicyRow>,
    pub rename: Option<RenameView>,
    pub hint: &'static str,
}

/// What the dialog shows of a side: its path, size, modification time and
/// digest, and how to ask for the digest.
pub open spec fn is_view_of_side(state: ConflictDialogState, side: Side, view: SideView) -> bool {
    let (path, meta, hash) = match side {
        Side::Source => (state.prompt.source, state.prompt.source_meta, state.source_hash),
        Side::Dest => (state.prompt.dest, state.prompt.dest_meta, state.dest_hash),
    };
    &&& view.heading@ == (match side {
        Side::Source => "Source"@,
        Side::Dest => "Destination"@,
    })
    &&& view.path@ == "file://"@ + path.path@
    &&& view.size@ == "Size: "@ + byte_count_text(meta.size as nat)
    &&& view.modified@ == "Modified: "@ + date_text(
        match meta.modified {
            Some(t) => t.secs as int,
            None => 0,
        },
    )
    &&& view.hash@ == hash_text("Hash"@, hash)
    &&& view.hash_label@ == (match side {
        Side::Source => "Hash source (Alt+H)"@,
        Side::Dest => "Hash destination (Alt+Shift+H)"@,
    })
    &&& view.hash_action == ConflictAction::Hash(side)
}

/// The name that a dialog's destination has, empty where it has none.
pub open spec fn dest_name(state: ConflictDialogState) -> Seq<char> {
    match name_text(state.prompt.dest.path@) {
        Some(name) => name,
        None => Seq::empty(),
    }
}

/// The dialog's headline.
pub open spec fn is_title_of(state: ConflictDialogState, title: Seq<char>) -> bool {
    title == "\u{201c}"@ + dest_name(state) + "\u{201d} already exists"@
}

/// Refusing a new name: the dialog shows why and stays as it is.
pub open spec fn rename_refused(
    before: ConflictDialogState,
    after: ConflictDialogState,
    message: Seq<char>,
) -> bool {
    &&& after.rename_error is Some
    &&& after.rename_error->0@ == message
    &&& after == (ConflictDialogState { rename_error: after.rename_error, ..before })
}

/// Showing the field for a new name: what was typed into it before stays, and
/// at first it holds the destination's name.
pub open spec fn rename_started(before: ConflictDialogState, after: ConflictDialogState) -> bool {
    &&& after == (ConflictDialogState {
        renaming: true,
        rename_error: None,
        rename_input: after.rename_input,
        ..before
    })
    &&& match before.rename_input {
        Some(text) => after.rename_input == Some(text),
        None => after.rename_input is Some && after.rename_input->0@ == dest_name(before),
    }
}

/// Asking for the digest of a side: its path is to be read, unless it is being
/// read already.
pub open spec fn hash_started(
    before: ConflictDialogState,
    after: ConflictDialogState,
    side: Side,
    path: Option<VPath>,
) -> bool {
    match side {
        Side::Source => if before.source_hash is Hashing {
            path is None && after == before
        } else {
            path == Some(before.prompt.source) && after == (ConflictDialogState {
                source_hash: HashState::Hashing,
                ..before
            })
        },
        Side::Dest => if before.dest_hash is Hashing {
            path is None && after == before
        } else {
            path == Some(before.prompt.dest) && after == (ConflictDialogState {
                dest_hash: HashState::Hashing,
                ..before
            })
        },
    }
}

/// The state of a digest after making it ended.
pub open spec fn hash_after(outcome: HashOutcome, state: HashState) -> bool {
    match outcome {
        HashOutcome::Done(hex) => state == HashState::Done(hex),
        HashOutcome::Failed(message) => state == HashState::Failed(message),
        HashOutcome::Dropped => state is Failed && state->Failed_0@
            == "the hashing task was dropped before completing"@,
    }
}

/// What a side shows depends on its own entry alone: two sides with the same
/// path, metadata and digest read the same but for their headings, in one dialog
/// or in two, whatever stands on the other side.
pub proof fn lemma_side_shows_its_own_entry(
    a: ConflictDialogState,
    side: Side,
    view: SideView,
    b: ConflictDialogState,
    other: Side,
    other_view: SideView,
)
    requires
        is_view_of_side(a, side, view),
        is_view_of_side(b, other, other_view),
        ({
            let one = match side {
                Side::Source => (a.prompt.source, a.prompt.source_meta, a.source_hash),
                Side::Dest => (a.prompt.dest, a.prompt.dest_meta, a.dest_hash),
            };
            let two = match other {
                Side::Source => (b.prompt.source, b.prompt.source_meta, b.source_hash),
                Side::Dest => (b.prompt.dest, b.prompt.dest_meta, b.dest_hash),
            };
            one == two
        }),
    ensures
        view.path@ == other_view.path@,
        view.size@ == other_view.size@,
        view.modified@ == other_view.modified@,
        view.hash@ == other_view.hash@,
        side == other <==> view.hash_action == other_view.hash_action,
{
}

/// What a side shows reads back as its own entry: the path, the size, the digest
/// once it is there, and the minute of the modification time.
pub proof fn lemma_side_reads_back(state: ConflictDialogState, side: Side, view: SideView)
    requires
        is_view_of_side(state, side, view),
    ensures
        ({
            let (path, meta, hash) = match side {
                Side::Source => (state.prompt.source, state.prompt.source_meta, state.source_hash),
                Side::Dest => (state.prompt.dest, state.prompt.dest_meta, state.dest_hash),
            };
            &&& view.path@.skip(7) == path.path@
            &&& view.size@.skip(6) == byte_count_text(meta.size as nat)
            &&& hash is Done ==> view.hash@.skip(6) == hash->Done_0@
            &&& meta.modified is None || meta.modified->0.secs == 0 ==> view.modified@.skip(10)
                == seq!['-']
            &&& match meta.modified {
                Some(t) => i64::MIN + 60 <= t.secs && t.secs != 0 && civil_at(t.secs as int).0 >= 0
                    ==> {
                    let shown = spelled(view.modified@.skip(10));
                    &&& shown is Some
                    &&& civil_seconds(shown->0) <= t.secs < civil_seconds(shown->0) + 60
                },
                None => true,
            }
            &&& view.hash_action == ConflictAction::Hash(side)
        }),
{
    reveal_strlit("file://");
    reveal_strlit("Size: ");
    reveal_strlit("Modified: ");
    reveal_strlit("Hash");
    reveal_strlit(": ");
    reveal_strlit("-");
    let (path, meta, hash) = match side {
        Side::Source => (state.prompt.source, state.prompt.source_meta, state.source_hash),
        Side::Dest => (state.prompt.dest, state.prompt.dest_meta, state.dest_hash),
    };
    assert(view.path@.skip(7) =~= path.path@);
    assert(view.size@.skip(6) =~= byte_count_text(meta.size as nat));
    let secs = match meta.modified {
        Some(t) => t.secs as int,
        None => 0,
    };
    assert(view.modified@.skip(10) =~= date_text(secs));
    assert(date_text(0) =~= seq!['-']);
    if let HashState::Done(hex) = hash {
        assert(view.hash@.skip(6) =~= hex@);
    }
    if let Some(t) = meta.modified {
        if i64::MIN + 60 <= t.secs && t.secs != 0 && civil_at(t.secs as int).0 >= 0 {
            lemma_shown_date_reads_back(t.secs as int);
        }
    }
}

/// A new name stays in the destination's directory: what is joined is that
/// directory and the name as it was typed, without the whitespace around it. A
/// name is refused before that exactly where nothing is left of it, where it
/// holds a slash, or where the destination has no directory.
pub proof fn lemma_new_name_stays_in_its_directory(dest: Seq<char>, new_name: Seq<char>)
    ensures
        match rename_parts_of(dest, new_name) {
            Ok((dir, name)) => {
                &&& parent_text(dest) == Some(dir)
                &&& name == trimmed(new_name)
                &&& name.len() > 0
                &&& !name.contains('/')
            },
            Err(_) => trimmed(new_name).len() == 0 || trimmed(new_name).contains('/') || parent_text(
                dest,
            ) is None,
        },
{
    let name = trimmed(new_name);
    lemma_find(name, '/', 0);
    if find(name, '/', 0) < name.len() {
        assert(name.contains(name[find(name, '/', 0)]));
    }
}

/// A new name that can name an entry gives its path beside the destination: in
/// the same directory, under that name.
pub proof fn lemma_renamed_path(dest: Seq<char>, new_name: Seq<char>, joined: Result<VPath, String>)
    requires
        parts_joined(dest, new_name, joined),
        is_entry_name(trimmed(new_name)),
        parent_text(dest) is Some,
        ({
            let dir = parent_text(dest)->0;
            dir == seq!['/'] || (dir.len() > 0 && dir[0] == '/' && dir.last() != '/')
        }),
    ensures
        joined is Ok,
        parent_text(joined->Ok_0.path@) == parent_text(dest),
        name_text(joined->Ok_0.path@) == Some(trimmed(new_name)),
{
    lemma_entry_of_a_directory(parent_text(dest)->0, trimmed(new_name));
}

/// Each key has its action, and each action its keys.
pub proof fn lemma_keys_of_the_conflict_dialog(keys: Seq<char>)
    ensures
        match conflict_action(keys) {
            Some(ConflictAction::Answer(policy, scope)) => match (policy, scope) {
                (ConflictPolicy::Overwrite, ConflictScope::ThisOnly) => keys == "alt-y"@,
                (ConflictPolicy::Overwrite, ConflictScope::AllRemaining) => keys == "alt-a"@,
                (ConflictPolicy::Skip, ConflictScope::ThisOnly) => keys == "alt-n"@ || keys
                    == "escape"@,
                (ConflictPolicy::Skip, ConflictScope::AllRemaining) => keys == "alt-s"@,
                (ConflictPolicy::OverwriteIfOlder, ConflictScope::ThisOnly) => keys == "alt-o"@,
                (ConflictPolicy::OverwriteIfOlder, ConflictScope::AllRemaining) => keys
                    == "alt-shift-o"@,
                (ConflictPolicy::OverwriteIfDifferentSize, ConflictScope::ThisOnly) => keys
                    == "alt-d"@,
                (ConflictPolicy::OverwriteIfDifferentSize, ConflictScope::AllRemaining) => keys
                    == "alt-shift-d"@,
                (ConflictPolicy::AutoRename, ConflictScope::ThisOnly) => keys == "alt-u"@,
                (ConflictPolicy::AutoRename, ConflictScope::AllRemaining) => keys == "alt-shift-u"@,
                (ConflictPolicy::Abort, ConflictScope::ThisOnly) => keys == "alt-b"@,
                (ConflictPolicy::Abort, ConflictScope::AllRemaining) => keys == "alt-shift-b"@,
                (ConflictPolicy::RenameTarget, _) => false,
            },
            Some(ConflictAction::Rename) => keys == "alt-r"@,
            Some(ConflictAction::Hash(Side::Source)) => keys == "alt-h"@,
            Some(ConflictAction::Hash(Side::Dest)) => keys == "alt-shift-h"@,
            Some(ConflictAction::CycleFocus) => keys == "tab"@ || keys == "shift-tab"@,
            None => !seq![
                "alt-y"@, "alt-a"@, "alt-n"@, "escape"@, "alt-s"@, "alt-o"@, "alt-shift-o"@,
                "alt-d"@, "alt-shift-d"@, "alt-u"@, "alt-shift-u"@, "alt-b"@, "alt-shift-b"@,
                "alt-r"@, "alt-h"@, "alt-shift-h"@, "tab"@, "shift-tab"@,
            ].contains(keys),
        },
{
}

/// Every policy has one row, those that overwrite or skip first and a new name
/// last, and a click on a row does what its keys do.
pub proof fn lemma_every_policy_has_a_row(policy: ConflictPolicy, row: PolicyRow)
    requires
        is_row_of(row, policy),
    ensures
        exists|i: int| 0 <= i < policies_shown().len() && #[trigger] policies_shown()[i] == policy,
        forall|i: int, j: int|
            0 <= i < j < policies_shown().len() ==> #[trigger] policies_shown()[i]
                != #[trigger] policies_shown()[j],
        policies_shown()[match policy {
            ConflictPolicy::Overwrite => 0int,
            ConflictPolicy::Skip => 1,
            ConflictPolicy::OverwriteIfOlder => 2,
            ConflictPolicy::OverwriteIfDifferentSize => 3,
            ConflictPolicy::AutoRename => 4,
            ConflictPolicy::Abort => 5,
            ConflictPolicy::RenameTarget => 6,
        }] == policy,
        conflict_action(policy_keys(policy, ConflictScope::ThisOnly)) == Some(row.this_action),
        row.all_action is Some ==> conflict_action(policy_keys(policy, ConflictScope::AllRemaining))
            == row.all_action,
        row.all_action is None <==> policy == ConflictPolicy::RenameTarget,
        row.all_hint is Some <==> row.all_action is Some,
{
    lemma_every_policy_has_its_keys(policy, ConflictScope::ThisOnly);
    lemma_every_policy_has_its_keys(policy, ConflictScope::AllRemaining);
    let shown = policies_shown();
    assert(shown[0] == ConflictPolicy::Overwrite);
    assert(shown[1] == ConflictPolicy::Skip);
    assert(shown[2] == ConflictPolicy::OverwriteIfOlder);
    assert(shown[3] == ConflictPolicy::OverwriteIfDifferentSize);
    assert(shown[4] == ConflictPolicy::AutoRename);
    assert(shown[5] == ConflictPolicy::Abort);
    assert(shown[6] == ConflictPolicy::RenameTarget);
}

/// Asking for the digest of a side reads that side's path, once at a time, and
/// leaves the other side, the answer and the new name alone.
pub proof fn lemma_sides_are_digested_apart(
    before: ConflictDialogState,
    after: ConflictDialogState,
    side: Side,
    path: Option<VPath>,
)
    requires
        hash_started(before, after, side, path),
    ensures
        after.prompt == before.prompt,
        after.answered == before.answered,
        after.rename_input == before.rename_input,
        match side {
            Side::Source => {
                &&& after.source_hash is Hashing
                &&& after.dest_hash == before.dest_hash
                &&& path is None <==> before.source_hash is Hashing
                &&& path is Some ==> path->0 == before.prompt.source
            },
            Side::Dest => {
                &&& after.dest_hash is Hashing
                &&& after.source_hash == before.source_hash
                &&& path is None <==> before.dest_hash is Hashing
                &&& path is Some ==> path->0 == before.prompt.dest
            },
        },
{
}

/// A digest that was made is the one that is shown; one that was not is shown as
/// failed, with the reason that was given.
pub proof fn lemma_digest_is_shown(outcome: HashOutcome, state: HashState, label: Seq<char>)
    requires
        hash_after(outcome, state),
    ensures
        match outcome {
            HashOutcome::Done(hex) => hash_text(label, state) == label + ": "@ + hex@,
            HashOutcome::Failed(message) => (label + ": failed"@).is_prefix_of(
                hash_text(label, state),
            ) && message@.is_suffix_of(hash_text(label, state)),
            HashOutcome::Dropped => (label + ": failed"@).is_prefix_of(hash_text(label, state)),
        },
        !(state is Idle) && !(state is Hashing),
        hash_text(label, HashState::Idle) == label + ": (not computed)"@,
        hash_text(label, HashState::Hashing) == label + ": computing\u{2026}"@,
{
    reveal_strlit(": failed");
    reveal_strlit(": failed \u{2014} ");
    if let HashState::Failed(message) = state {
        let text = hash_text(label, state);
        let head = label + ": failed"@;
        assert(text.take(head.len() as int) =~= head);
        assert(text.skip(text.len() - message@.len()) =~= message@);
    }
}

/// The headline names the destination that is taken. The field for a new name
/// starts with that name, and what was typed there is kept.
pub proof fn lemma_dialog_names_the_destination(
    before: ConflictDialogState,
    after: ConflictDialogState,
    title: Seq<char>,
    name: Seq<char>,
)
    requires
        name_text(before.prompt.dest.path@) == Some(name),
        is_title_of(before, title),
        rename_started(before, after),
    ensures
        title == seq!['\u{201c}'] + name + seq!['\u{201d}'] + " already exists"@,
        after.renaming,
        after.rename_error is None,
        after.answered == before.answered,
        after.prompt == before.prompt,
        after.rename_input is Some,
        before.rename_input is None ==> after.rename_input->0@ == name,
        before.rename_input is Some ==> after.rename_input == before.rename_input,
{
    reveal_strlit("\u{201c}");
    reveal_strlit("\u{201d} already exists");
    reveal_strlit(" already exists");
    assert(title =~= seq!['\u{201c}'] + name + seq!['\u{201d}'] + " already exists"@);
}

/// A name that is refused leaves the conflict open and the field as it is, and
/// says why.
pub proof fn lemma_refused_name_stays_open(
    before: ConflictDialogState,
    after: ConflictDialogState,
    name: Seq<char>,
    reason: Seq<char>,
)
    requires
        rename_refused(before, after, name_refusal(name, reason)),
    ensures
        after.answered == before.answered,
        after.rename_input == before.rename_input,
        after.renaming == before.renaming,
        after.prompt == before.prompt,
        after.rename_error is Some,
        (seq!['\u{201c}'] + name + seq!['\u{201d}']).is_prefix_of(after.rename_error->0@),
        reason.is_suffix_of(after.rename_error->0@),
{
    reveal_strlit("\u{201c}");
    reveal_strlit("\u{201d} isn't a valid name: ");
    let text = after.rename_error->0@;
    let head = seq!['\u{201c}'] + name + seq!['\u{201d}'];
    assert(text.take(head.len() as int) =~= head);
    assert(text.skip(text.len() - reason.len()) =~= reason);
}

/// The hint of a row shows the key that does the same: its letter, in upper
/// case, stands behind `Alt+`, or behind `Alt+Shift+` where Shift is held.
pub proof fn lemma_hints_show_the_keys(policy: ConflictPolicy, row: PolicyRow)
    requires
        is_row_of(row, policy),
    ensures
        ({
            let this = policy_keys(policy, ConflictScope::ThisOnly);
            "Alt+"@.is_prefix_of(row.this_hint@) && row.this_hint@[4] as int == this.last() as int
                - 32
        }),
        row.all_hint is Some ==> ({
            let all = policy_keys(policy, ConflictScope::AllRemaining);
            let hint = row.all_hint->0@;
            &&& hint[hint.len() - 7] as int == all.last() as int - 32
            &&& " (all)"@.is_suffix_of(hint)
            &&& hint.len() == (if all.len() > 5 {
                17int
            } else {
                11
            })
        }),
{
    reveal_strlit("Alt+");
    reveal_strlit(" (all)");
    reveal_strlit("Alt+Y");
    reveal_strlit("Alt+A (all)");
    reveal_strlit("Alt+N / Esc");
    reveal_strlit("Alt+S (all)");
    reveal_strlit("Alt+O");
    reveal_strlit("Alt+Shift+O (all)");
    reveal_strlit("Alt+D");
    reveal_strlit("Alt+Shift+D (all)");
    reveal_strlit("Alt+U");
    reveal_strlit("Alt+Shift+U (all)");
    reveal_strlit("Alt+B");
    reveal_strlit("Alt+Shift+B (all)");
    reveal_strlit("Alt+R");
    reveal_strlit("alt-y");
    reveal_strlit("alt-a");
    reveal_strlit("alt-n");
    reveal_strlit("alt-s");
    reveal_strlit("alt-o");
    reveal_strlit("alt-shift-o");
    reveal_strlit("alt-d");
    reveal_strlit("alt-shift-d");
    reveal_strlit("alt-u");
    reveal_strlit("alt-shift-u");
    reveal_strlit("alt-b");
    reveal_strlit("alt-shift-b");
    reveal_strlit("alt-r");
    assert(row.this_hint@.take(4) =~= "Alt+"@);
    if let Some(text) = row.all_hint {
        let hint = text@;
        assert(hint.skip(hint.len() - 6) =~= " (all)"@);
    }
}

/// No two policies go by the same name.
pub proof fn lemma_policies_are_told_apart(
    a: ConflictPolicy,
    row: PolicyRow,
    b: ConflictPolicy,
    other: PolicyRow,
)
    requires
        is_row_of(row, a),
        is_row_of(other, b),
        row.name@ == other.name@,
    ensures
        a == b,
{
    reveal_strlit("Overwrite");
    reveal_strlit("Skip");
    reveal_strlit("Overwrite if older");
    reveal_strlit("Overwrite if different size");
    reveal_strlit("Auto-rename");
    reveal_strlit("Abort job");
    reveal_strlit("Rename target (this conflict only)");
    assert("Overwrite"@.len() == 9 && "Overwrite"@[1] == 'v');
    assert("Abort job"@.len() == 9 && "Abort job"@[1] == 'b');
    assert("Skip"@.len() == 4 && "Overwrite if older"@.len() == 18);
    assert("Overwrite if different size"@.len() == 27 && "Auto-rename"@.len() == 11);
    assert("Rename target (this conflict only)"@.len() == 34);
    assert(row.name@.len() == other.name@.len());
    assert(row.name@[1] == other.name@[1]);
}

} // verus!
