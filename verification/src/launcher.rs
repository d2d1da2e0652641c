//! Opening files with their applications: which override, program or
//! application a file goes to, and which files are opened together.

use crate::open_with::AppChoice;
use crate::paths::{file_name_of, path_file_name};
use crate::text::{
    chars_of, find, find_char, holds_text, lemma_find, same_text, string_of, texts_of,
};
use vstd::multiset::Multiset;
use vstd::prelude::*;

verus! {

/// An application.
#[derive(Debug, PartialEq, Eq)]
pub struct DesktopEntry {
    pub id: String,
    pub name: String,
    /// Whether it takes several files at once.
    pub accepts_multiple: bool,
    pub terminal: bool,
}

impl Clone for DesktopEntry {
    fn clone(&self) -> (copy: Self)
        ensures
            copy == *self,
    {
        DesktopEntry {
            id: self.id.clone(),
            name: self.name.clone(),
            accepts_multiple: self.accepts_multiple,
            terminal: self.terminal,
        }
    }
}

/// A command of the settings that opens what a key names: a type
/// (`text/markdown`), an extension (`*.md`) or a class of types (`text/*`).
#[derive(Debug, PartialEq, Eq)]
pub struct Override {
    pub key: String,
    pub command: String,
    /// The command's words.
    pub tokens: Vec<String>,
}

/// How files are opened.
#[derive(Debug, PartialEq, Eq)]
pub enum Launch {
    /// The file is the program.
    Executable { terminal: bool },
    /// A command of the settings.
    Command { command: String, accepts_multiple: bool },
    Entry(DesktopEntry),
}

impl Clone for Launch {
    fn clone(&self) -> (copy: Self)
        ensures
            copy == *self,
    {
        match self {
            Launch::Executable { terminal } => Launch::Executable { terminal: *terminal },
            Launch::Command { command, accepts_multiple } => Launch::Command {
                command: command.clone(),
                accepts_multiple: *accepts_multiple,
            },
            Launch::Entry(entry) => Launch::Entry(entry.clone()),
        }
    }
}

/// Files that are opened together.
#[derive(Debug, PartialEq, Eq)]
pub struct LaunchRequest {
    pub launch: Launch,
    pub files: Vec<String>,
}

/// A file to open, with what is known of it.
#[derive(Debug, PartialEq, Eq)]
pub struct OpenTarget {
    pub path: String,
    /// Whether it may be run.
    pub executable: bool,
    pub mime: String,
    /// The application that its type is associated with.
    pub default_entry: Option<DesktopEntry>,
}

/// A text in lower case.
pub uninterp spec fn lowercase(text: Seq<char>) -> Seq<char>;

/// `str::to_lowercase`. The result is a function of the text.
#[verifier::external_body]
fn to_lower(text: &str) -> (lower: String)
    ensures
        lower@ == lowercase(text@),
{
    text.to_lowercase()
}

/// The place of the first override at or behind `from` with a key.
pub open spec fn override_at(overrides: Seq<Override>, key: Seq<char>, from: int) -> Option<int>
    decreases overrides.len() - from,
{
    if from < 0 || from >= overrides.len() {
        None
    } else if overrides[from].key@ == key {
        Some(from)
    } else {
        override_at(overrides, key, from + 1)
    }
}

/// The place of the override for an extension: the longest one first, of
/// those that begin behind a `.` at or behind `from`.
pub open spec fn extension_override(
    overrides: Seq<Override>,
    lower_name: Seq<char>,
    from: int,
) -> Option<int>
    decreases lower_name.len() - from,
{
    if from < 0 || from >= lower_name.len() {
        None
    } else if lower_name[from] == '.' && override_at(
        overrides,
        "*."@ + lower_name.skip(from + 1),
        0,
    ) is Some {
        override_at(overrides, "*."@ + lower_name.skip(from + 1), 0)
    } else {
        extension_override(overrides, lower_name, from + 1)
    }
}

/// The place of the override for a file: that of its type, else of its
/// extension, else of its class of types. A `.` in front of a name begins no
/// extension.
pub open spec fn override_place(
    overrides: Seq<Override>,
    mime: Seq<char>,
    lower_name: Seq<char>,
) -> Option<int> {
    if override_at(overrides, mime, 0) is Some {
        override_at(overrides, mime, 0)
    } else if extension_override(overrides, lower_name, 1) is Some {
        extension_override(overrides, lower_name, 1)
    } else if find(mime, '/', 0) < mime.len() {
        override_at(overrides, mime.take(find(mime, '/', 0)) + "/*"@, 0)
    } else {
        None
    }
}

fn find_override(overrides: &Vec<Override>, key: &str) -> (at: Option<usize>)
    ensures
        match at {
            Some(i) => override_at(overrides@, key@, 0) == Some(i as int) && i < overrides@.len(),
            None => override_at(overrides@, key@, 0) is None,
        },
{
    let mut i: usize = 0;
    while i < overrides.len()
        invariant
            i <= overrides@.len(),
            override_at(overrides@, key@, 0) == override_at(overrides@, key@, i as int),
        decreases overrides@.len() - i,
    {
        if same_text(overrides[i].key.as_str(), key) {
            return Some(i);
        }
        i = i + 1;
    }
    None
}

/// The place of the override for a file, given its name in lower case.
pub fn override_given(overrides: &Vec<Override>, mime: &str, lower_name: &str) -> (at: Option<
    usize,
>)
    ensures
        match at {
            Some(i) => override_place(overrides@, mime@, lower_name@) == Some(i as int) && i
                < overrides@.len(),
            None => override_place(overrides@, mime@, lower_name@) is None,
        },
{
    if let Some(i) = find_override(overrides, mime) {
        return Some(i);
    }
    let lower = chars_of(lower_name);
    let n: usize = lower.len();
    let mut i: usize = 1;
    while i < n
        invariant
            1 <= i,
            i <= n || n < 1,
            lower@ == lower_name@,
            n == lower@.len(),
            override_at(overrides@, mime@, 0) is None,
            extension_override(overrides@, lower@, 1) == extension_override(
                overrides@,
                lower@,
                i as int,
            ),
        decreases n - i,
    {
        if lower[i] == '.' {
            let mut key = "*.".to_owned();
            key.append(string_of(&lower, i + 1, n).as_str());
            assert(lower@.subrange(i + 1, n as int) =~= lower@.skip(i + 1));
            if let Some(at) = find_override(overrides, key.as_str()) {
                return Some(at);
            }
        }
        i = i + 1;
    }
    let chars = chars_of(mime);
    let slash: usize = find_char(&chars, '/', 0);
    if slash < chars.len() {
        let mut key = string_of(&chars, 0, slash);
        assert(key@ =~= mime@.take(slash as int));
        key.append("/*");
        return find_override(overrides, key.as_str());
    }
    None
}

/// The command of the settings for a file.
pub fn override_for<'a>(overrides: &'a Vec<Override>, mime: &str, file_name: &str) -> (command:
    Option<&'a str>)
    ensures
        match command {
            Some(c) => override_place(overrides@, mime@, lowercase(file_name@)) is Some && c@
                == overrides@[override_place(
                overrides@,
                mime@,
                lowercase(file_name@),
            )->0].command@,
            None => override_place(overrides@, mime@, lowercase(file_name@)) is None,
        },
{
    let lower = to_lower(file_name);
    match override_given(overrides, mime, lower.as_str()) {
        Some(i) => Some(overrides[i].command.as_str()),
        None => None,
    }
}

/// Whether a type is a program's.
pub open spec fn binary_type(mime: Seq<char>) -> bool {
    ||| mime == "application/x-executable"@
    ||| mime == "application/x-pie-executable"@
    ||| mime == "application/vnd.appimage"@
    ||| mime == "application/x-appimage"@
}

pub fn is_binary_executable(mime: &str) -> (b: bool)
    ensures
        b == binary_type(mime@),
{
    same_text(mime, "application/x-executable") || same_text(mime, "application/x-pie-executable")
        || same_text(mime, "application/vnd.appimage") || same_text(
        mime,
        "application/x-appimage",
    )
}

/// Whether a type is a script's.
pub open spec fn script_type(mime: Seq<char>) -> bool {
    ||| mime == "application/x-shellscript"@
    ||| mime == "text/x-shellscript"@
    ||| mime == "text/x-python"@
    ||| mime == "text/x-python3"@
    ||| mime == "application/x-python"@
    ||| mime == "application/x-perl"@
    ||| mime == "text/x-perl"@
    ||| mime == "application/x-ruby"@
    ||| mime == "text/x-ruby"@
    ||| mime == "application/javascript"@
    ||| mime == "text/javascript"@
    ||| mime == "text/x-lua"@
}

pub fn is_script(mime: &str) -> (s: bool)
    ensures
        s == script_type(mime@),
{
    same_text(mime, "application/x-shellscript") || same_text(mime, "text/x-shellscript")
        || same_text(mime, "text/x-python") || same_text(mime, "text/x-python3") || same_text(
        mime,
        "application/x-python",
    ) || same_text(mime, "application/x-perl") || same_text(mime, "text/x-perl") || same_text(
        mime,
        "application/x-ruby",
    ) || same_text(mime, "text/x-ruby") || same_text(mime, "application/javascript") || same_text(
        mime,
        "text/javascript",
    ) || same_text(mime, "text/x-lua")
}

/// The type of a file: by its name, else by its content, else bytes.
pub fn mime_of(by_name: Option<String>, by_content: Option<String>) -> (mime: String)
    ensures
        mime@ == (match (by_name, by_content) {
            (Some(m), _) => m@,
            (None, Some(m)) => m@,
            (None, None) => "application/octet-stream"@,
        }),
{
    match (by_name, by_content) {
        (Some(m), _) => m,
        (None, Some(m)) => m,
        (None, None) => "application/octet-stream".to_owned(),
    }
}

/// Whether one of a command's words stands for all files.
pub open spec fn takes_all(tokens: Seq<String>) -> bool {
    exists|i: int|
        0 <= i < tokens.len() && ((#[trigger] tokens[i])@ == "%F"@ || tokens[i]@ == "%U"@)
}

/// Whether a command takes every file at once, by its words.
pub fn command_accepts_multiple(tokens: &Vec<String>) -> (multiple: bool)
    ensures
        multiple == takes_all(tokens@),
{
    let mut i: usize = 0;
    while i < tokens.len()
        invariant
            i <= tokens@.len(),
            forall|j: int|
                0 <= j < i ==> (#[trigger] tokens@[j])@ != "%F"@ && tokens@[j]@ != "%U"@,
        decreases tokens@.len() - i,
    {
        if same_text(tokens[i].as_str(), "%F") || same_text(tokens[i].as_str(), "%U") {
            return true;
        }
        i = i + 1;
    }
    false
}

/// How a file is opened; `None` where nothing opens it. A command of the
/// settings goes first; a program that may be run runs, a script in a
/// terminal; anything else goes to the application of its type.
pub open spec fn launch_of(
    overrides: Seq<Override>,
    target: OpenTarget,
    lower_name: Seq<char>,
) -> Option<Launch> {
    match override_place(overrides, target.mime@, lower_name) {
        Some(i) => Some(
            Launch::Command {
                command: overrides[i].command,
                accepts_multiple: takes_all(overrides[i].tokens@),
            },
        ),
        None => if target.executable && binary_type(target.mime@) {
            Some(Launch::Executable { terminal: false })
        } else if target.executable && script_type(target.mime@) {
            Some(Launch::Executable { terminal: true })
        } else {
            match target.default_entry {
                Some(entry) => Some(Launch::Entry(entry)),
                None => None,
            }
        },
    }
}

/// A file's name; a path without one has none to show.
pub open spec fn shown_name(path: Seq<char>) -> Seq<char> {
    match path_file_name(path) {
        Some(name) => name,
        None => Seq::empty(),
    }
}

/// What the user is told where nothing opens a file.
pub open spec fn unassociated(mime: Seq<char>, name: Seq<char>) -> Seq<char> {
    "No application is associated with "@ + mime + " ("@ + name + ")"@
}

/// How a file is opened, given its name and that name in lower case.
pub fn resolve_given(
    overrides: &Vec<Override>,
    target: &OpenTarget,
    name: &str,
    lower_name: &str,
) -> (r: Result<Launch, String>)
    ensures
        match r {
            Ok(launch) => launch_of(overrides@, *target, lower_name@) == Some(launch),
            Err(message) => launch_of(overrides@, *target, lower_name@) is None && message@
                == unassociated(target.mime@, name@),
        },
{
    let mime = target.mime.as_str();
    if let Some(i) = override_given(overrides, mime, lower_name) {
        let accepts_multiple = command_accepts_multiple(&overrides[i].tokens);
        return Ok(
            Launch::Command { command: overrides[i].command.clone(), accepts_multiple },
        );
    }
    if target.executable && is_binary_executable(mime) {
        return Ok(Launch::Executable { terminal: false });
    }
    if target.executable && is_script(mime) {
        return Ok(Launch::Executable { terminal: true });
    }
    match &target.default_entry {
        Some(entry) => Ok(Launch::Entry(entry.clone())),
        None => {
            let mut message = "No application is associated with ".to_owned();
            message.append(mime);
            message.append(" (");
            message.append(name);
            message.append(")");
            Err(message)
        },
    }
}

/// How a file is opened.
pub fn resolve_one(overrides: &Vec<Override>, target: &OpenTarget) -> (r: Result<Launch, String>)
    ensures
        resolves_to(r, overrides@, *target),
{
    let name = match file_name_of(target.path.as_str()) {
        Some(name) => name,
        None => String::new(),
    };
    assert(name@ =~= shown_name(target.path@));
    let lower = to_lower(name.as_str());
    resolve_given(overrides, target, name.as_str(), lower.as_str())
}

/// Whether two ways to open files are the same command or application.
pub open spec fn same_launch(a: Launch, b: Launch) -> bool {
    match (a, b) {
        (Launch::Command { command: c, .. }, Launch::Command { command: d, .. }) => c@ == d@,
        (Launch::Entry(e), Launch::Entry(f)) => e.id@ == f.id@,
        _ => false,
    }
}

fn opens_alike(a: &Launch, b: &Launch) -> (same: bool)
    ensures
        same == same_launch(*a, *b),
{
    match (a, b) {
        (Launch::Command { command: c, .. }, Launch::Command { command: d, .. }) => same_text(
            c.as_str(),
            d.as_str(),
        ),
        (Launch::Entry(e), Launch::Entry(f)) => same_text(e.id.as_str(), f.id.as_str()),
        _ => false,
    }
}

/// A way to open files, and the files.
pub type Opened = (Launch, Seq<String>);

pub open spec fn request_view(request: LaunchRequest) -> Opened {
    (request.launch, request.files@)
}

pub open spec fn request_views(requests: Seq<LaunchRequest>) -> Seq<Opened> {
    Seq::new(requests.len(), |i: int| request_view(requests[i]))
}

/// The files that are programs, each opened by itself. `launches` are the
/// ways that the targets are opened.
pub open spec fn programs(targets: Seq<OpenTarget>, launches: Seq<Option<Launch>>) -> Seq<Opened>
    decreases targets.len(),
{
    if targets.len() == 0 {
        Seq::empty()
    } else {
        let before = programs(targets.drop_last(), launches);
        match launches[targets.len() - 1] {
            Some(Launch::Executable { terminal }) => before.push(
                (Launch::Executable { terminal }, seq![targets.last().path]),
            ),
            _ => before,
        }
    }
}

/// The other files, in runs: a file goes to the run before it where that is
/// opened the same way.
pub open spec fn runs(targets: Seq<OpenTarget>, launches: Seq<Option<Launch>>) -> Seq<Opened>
    decreases targets.len(),
{
    if targets.len() == 0 {
        Seq::empty()
    } else {
        let before = runs(targets.drop_last(), launches);
        let path = targets.last().path;
        match launches[targets.len() - 1] {
            None => before,
            Some(Launch::Executable { .. }) => before,
            Some(launch) => if before.len() > 0 && same_launch(before.last().0, launch) {
                before.drop_last().push((before.last().0, before.last().1.push(path)))
            } else {
                before.push((launch, seq![path]))
            },
        }
    }
}

pub open spec fn accepts_several(launch: Launch) -> bool {
    match launch {
        Launch::Executable { .. } => false,
        Launch::Command { accepts_multiple, .. } => accepts_multiple,
        Launch::Entry(entry) => entry.accepts_multiple,
    }
}

/// A run, cut into what is opened at once: all of it, or file by file.
pub open spec fn batches(run: Opened) -> Seq<Opened> {
    if accepts_several(run.0) {
        seq![run]
    } else {
        Seq::new(run.1.len(), |i: int| (run.0, seq![run.1[i]]))
    }
}

pub open spec fn all_batches(runs: Seq<Opened>) -> Seq<Opened>
    decreases runs.len(),
{
    if runs.len() == 0 {
        Seq::empty()
    } else {
        all_batches(runs.drop_last()) + batches(runs.last())
    }
}

/// The ways that the targets are opened.
pub open spec fn launches_of(overrides: Seq<Override>, targets: Seq<OpenTarget>) -> Seq<
    Option<Launch>,
> {
    Seq::new(
        targets.len(),
        |i: int| launch_of(overrides, targets[i], lowercase(shown_name(targets[i].path@))),
    )
}

/// What is said of the targets that nothing opens, in their order.
pub open spec fn refusals(targets: Seq<OpenTarget>, launches: Seq<Option<Launch>>) -> Seq<Seq<char>>
    decreases targets.len(),
{
    if targets.len() == 0 {
        Seq::empty()
    } else {
        let before = refusals(targets.drop_last(), launches);
        if launches[targets.len() - 1] is None {
            before.push(unassociated(targets.last().mime@, shown_name(targets.last().path@)))
        } else {
            before
        }
    }
}

fn push_batches(requests: &mut Vec<LaunchRequest>, run: LaunchRequest)
    ensures
        request_views(final(requests)@) == request_views(old(requests)@) + batches(
            request_view(run),
        ),
{
    let several = match &run.launch {
        Launch::Executable { .. } => false,
        Launch::Command { accepts_multiple, .. } => *accepts_multiple,
        Launch::Entry(entry) => entry.accepts_multiple,
    };
    let ghost start = requests@;
    let ghost view = request_view(run);
    if several {
        requests.push(run);
        assert(request_views(requests@) =~= request_views(start) + batches(view));
        return;
    }
    let mut i: usize = 0;
    assert(request_views(requests@) =~= request_views(start) + batches(view).take(0));
    while i < run.files.len()
        invariant
            view == request_view(run),
            !accepts_several(view.0),
            i <= run.files@.len(),
            request_views(requests@) == request_views(start) + batches(view).take(i as int),
        decreases run.files@.len() - i,
    {
        let ghost before = requests@;
        let mut files: Vec<String> = Vec::new();
        files.push(run.files[i].clone());
        assert(files@ =~= seq![run.files@[i as int]]);
        let request = LaunchRequest { launch: run.launch.clone(), files };
        assert(request_view(request) == batches(view)[i as int]);
        requests.push(request);
        assert(request_views(requests@) =~= request_views(before).push(batches(view)[i as int]));
        assert(batches(view).take(i + 1) =~= batches(view).take(i as int).push(
            batches(view)[i as int],
        ));
        assert(request_views(requests@) =~= request_views(start) + batches(view).take(i + 1));
        i = i + 1;
    }
    assert(batches(view).take(i as int) =~= batches(view));
}

/// The ways to open files among what resolving them gave.
pub open spec fn launches_given(resolved: Seq<Result<Launch, String>>) -> Seq<Option<Launch>> {
    Seq::new(
        resolved.len(),
        |i: int|
            match resolved[i] {
                Ok(launch) => Some(launch),
                Err(_) => None,
            },
    )
}

/// The messages among what resolving files gave, in their order.
pub open spec fn messages(resolved: Seq<Result<Launch, String>>) -> Seq<Seq<char>>
    decreases resolved.len(),
{
    if resolved.len() == 0 {
        Seq::empty()
    } else {
        let before = messages(resolved.drop_last());
        match resolved.last() {
            Ok(_) => before,
            Err(message) => before.push(message@),
        }
    }
}

/// What is opened for several files, given how each is opened by itself:
/// programs first, then the runs of files that are opened the same way,
/// together where their application takes several. What nothing opens is told
/// of.
pub fn plan_resolved(targets: &Vec<OpenTarget>, resolved: &Vec<Result<Launch, String>>) -> (r: (
    Vec<LaunchRequest>,
    Vec<String>,
))
    requires
        resolved@.len() == targets@.len(),
    ensures
        ({
            let launches = launches_given(resolved@);
            &&& request_views(r.0@) == programs(targets@, launches) + all_batches(
                runs(targets@, launches),
            )
            &&& texts_of(r.1@) == messages(resolved@)
        }),
{
    let ghost launches = launches_given(resolved@);
    let mut requests: Vec<LaunchRequest> = Vec::new();
    let mut errors: Vec<String> = Vec::new();
    let mut groups: Vec<LaunchRequest> = Vec::new();
    let mut i: usize = 0;
    proof {
        assert(request_views(requests@) =~= programs(targets@.take(0), launches));
        assert(request_views(groups@) =~= runs(targets@.take(0), launches));
        assert(texts_of(errors@) =~= messages(resolved@.take(0)));
    }
    while i < targets.len()
        invariant
            i <= targets@.len(),
            resolved@.len() == targets@.len(),
            launches == launches_given(resolved@),
            request_views(requests@) == programs(targets@.take(i as int), launches),
            request_views(groups@) == runs(targets@.take(i as int), launches),
            texts_of(errors@) == messages(resolved@.take(i as int)),
        decreases targets@.len() - i,
    {
        let target = &targets[i];
        let ghost now = targets@.take(i + 1);
        let ghost requests_before = requests@;
        let ghost groups_before = groups@;
        let ghost errors_before = errors@;
        proof {
            assert(now.drop_last() =~= targets@.take(i as int));
            assert(now.last() == *target);
            assert(resolved@.take(i + 1).drop_last() =~= resolved@.take(i as int));
            assert(resolved@.take(i + 1).last() == resolved@[i as int]);
        }
        match &resolved[i] {
            Ok(Launch::Executable { terminal }) => {
                let terminal = *terminal;
                let mut files: Vec<String> = Vec::new();
                files.push(target.path.clone());
                assert(files@ =~= seq![target.path]);
                requests.push(LaunchRequest { launch: Launch::Executable { terminal }, files });
                assert(request_views(requests@) =~= request_views(requests_before).push(
                    (Launch::Executable { terminal }, seq![target.path]),
                ));
            },
            Ok(launch) => {
                let count: usize = groups.len();
                let joins = count > 0 && opens_alike(&groups[count - 1].launch, launch);
                proof {
                    if count > 0 {
                        assert(request_views(groups@).last() == request_view(groups@[count - 1]));
                    }
                }
                if joins {
                    if let Some(mut last) = groups.pop() {
                        let ghost files_before = last.files@;
                        last.files.push(target.path.clone());
                        groups.push(last);
                        assert(request_views(groups@) =~= request_views(
                            groups_before,
                        ).drop_last().push(
                            (
                                request_views(groups_before).last().0,
                                request_views(groups_before).last().1.push(target.path),
                            ),
                        ));
                    }
                } else {
                    let mut files: Vec<String> = Vec::new();
                    files.push(target.path.clone());
                    assert(files@ =~= seq![target.path]);
                    groups.push(LaunchRequest { launch: launch.clone(), files });
                    assert(request_views(groups@) =~= request_views(groups_before).push(
                        (*launch, seq![target.path]),
                    ));
                }
            },
            Err(message) => {
                errors.push(message.clone());
                assert(texts_of(errors@) =~= texts_of(errors_before).push(message@));
            },
        }
        i = i + 1;
    }
    assert(targets@.take(i as int) =~= targets@);
    assert(resolved@.take(i as int) =~= resolved@);
    let ghost first = request_views(requests@);
    let ghost all = request_views(groups@);
    let ghost kept = groups@;
    let mut g: usize = 0;
    assert(first =~= first + all_batches(all.take(0)));
    while g < groups.len()
        invariant
            groups@ == kept,
            all == request_views(kept),
            g <= kept.len(),
            request_views(requests@) == first + all_batches(all.take(g as int)),
        decreases kept.len() - g,
    {
        let run = LaunchRequest {
            launch: groups[g].launch.clone(),
            files: copy_texts(&groups[g].files),
        };
        proof {
            assert(request_view(run) == all[g as int]);
            assert(all.take(g + 1).drop_last() =~= all.take(g as int));
            assert(all.take(g + 1).last() == all[g as int]);
        }
        let ghost before = request_views(requests@);
        push_batches(&mut requests, run);
        assert(request_views(requests@) =~= first + all_batches(all.take(g + 1)));
        g = g + 1;
    }
    assert(all.take(g as int) =~= all);
    (requests, errors)
}

/// Whether resolving a file gave what it is opened with.
pub open spec fn resolves_to(
    resolved: Result<Launch, String>,
    overrides: Seq<Override>,
    target: OpenTarget,
) -> bool {
    let launch = launch_of(overrides, target, lowercase(shown_name(target.path@)));
    match resolved {
        Ok(l) => launch == Some(l),
        Err(message) => launch is None && message@ == unassociated(
            target.mime@,
            shown_name(target.path@),
        ),
    }
}

proof fn lemma_messages_are_refusals(
    overrides: Seq<Override>,
    targets: Seq<OpenTarget>,
    resolved: Seq<Result<Launch, String>>,
    launches: Seq<Option<Launch>>,
)
    requires
        targets.len() == resolved.len() <= launches.len(),
        forall|i: int|
            0 <= i < resolved.len() ==> resolves_to(#[trigger] resolved[i], overrides, targets[i]),
        forall|i: int|
            0 <= i < resolved.len() ==> (#[trigger] launches[i] is None <==> resolved[i] is Err),
    ensures
        messages(resolved) == refusals(targets, launches),
    decreases targets.len(),
{
    if targets.len() > 0 {
        let n = targets.len() - 1;
        lemma_messages_are_refusals(
            overrides,
            targets.drop_last(),
            resolved.drop_last(),
            launches,
        );
        assert(resolves_to(resolved[n], overrides, targets[n]));
        assert(launches[n] is None <==> resolved[n] is Err);
    }
}

/// What is opened for several files, each as it is opened by itself. What
/// nothing opens is told of.
pub fn plan_open_many(overrides: &Vec<Override>, targets: &Vec<OpenTarget>) -> (r: (
    Vec<LaunchRequest>,
    Vec<String>,
))
    ensures
        ({
            let launches = launches_of(overrides@, targets@);
            &&& request_views(r.0@) == programs(targets@, launches) + all_batches(
                runs(targets@, launches),
            )
            &&& texts_of(r.1@) == refusals(targets@, launches)
        }),
{
    let mut resolved: Vec<Result<Launch, String>> = Vec::new();
    while resolved.len() < targets.len()
        invariant
            resolved@.len() <= targets@.len(),
            forall|i: int|
                0 <= i < resolved@.len() ==> resolves_to(
                    #[trigger] resolved@[i],
                    overrides@,
                    targets@[i],
                ),
        decreases targets@.len() - resolved@.len(),
    {
        let next = resolve_one(overrides, &targets[resolved.len()]);
        resolved.push(next);
    }
    proof {
        let launches = launches_of(overrides@, targets@);
        assert forall|i: int| 0 <= i < targets@.len() implies #[trigger] launches_given(
            resolved@,
        )[i] == launches[i] by {
            assert(resolves_to(resolved@[i], overrides@, targets@[i]));
        }
        assert(launches_given(resolved@) =~= launches);
        assert forall|i: int| 0 <= i < resolved@.len() implies (#[trigger] launches[i] is None
            <==> resolved@[i] is Err) by {
            assert(resolves_to(resolved@[i], overrides@, targets@[i]));
        }
        lemma_messages_are_refusals(overrides@, targets@, resolved@, launches);
    }
    plan_resolved(targets, &resolved)
}

fn copy_texts(strings: &Vec<String>) -> (copy: Vec<String>)
    ensures
        copy@ == strings@,
{
    let copy = strings.clone();
    assert(copy@ =~= strings@);
    copy
}

/// What is said where a plan could not be made of a request.
pub open spec fn unusable(launch: Launch) -> Seq<char> {
    match launch {
        Launch::Executable { .. } => "nothing to open"@,
        Launch::Command { command, .. } => "empty override command: "@ + command@,
        Launch::Entry(entry) => entry.name@ + " has no usable Exec line"@,
    }
}

pub fn describe_unusable(launch: &Launch) -> (text: String)
    ensures
        text@ == unusable(*launch),
{
    match launch {
        Launch::Executable { .. } => "nothing to open".to_owned(),
        Launch::Command { command, .. } => {
            let mut text = "empty override command: ".to_owned();
            text.append(command.as_str());
            text
        },
        Launch::Entry(entry) => {
            let mut text = entry.name.clone();
            text.append(" has no usable Exec line");
            text
        },
    }
}

/// An application that a type is associated with.
#[derive(Debug, PartialEq, Eq)]
pub struct Candidate {
    pub entry: DesktopEntry,
    pub is_default: bool,
}

/// Types in the order of their first occurrence, each once.
pub open spec fn first_occurrences(types: Seq<String>) -> Seq<String>
    decreases types.len(),
{
    if types.len() == 0 {
        Seq::empty()
    } else {
        let before = first_occurrences(types.drop_last());
        if holds_text(before, types.last()@) {
            before
        } else {
            before.push(types.last())
        }
    }
}

/// The types of some files, each once.
pub fn distinct_types(types: &Vec<String>) -> (distinct: Vec<String>)
    ensures
        distinct@ == first_occurrences(types@),
{
    let mut distinct: Vec<String> = Vec::new();
    let mut i: usize = 0;
    assert(types@.take(0).len() == 0);
    while i < types.len()
        invariant
            i <= types@.len(),
            distinct@ == first_occurrences(types@.take(i as int)),
        decreases types@.len() - i,
    {
        let ghost now = types@.take(i + 1);
        assert(now.drop_last() =~= types@.take(i as int));
        assert(now.last() == types@[i as int]);
        let mut known = false;
        let mut j: usize = 0;
        while j < distinct.len()
            invariant
                j <= distinct@.len(),
                i < types@.len(),
                known == exists|k: int|
                    0 <= k < j && (#[trigger] distinct@[k])@ == types@[i as int]@,
            decreases distinct@.len() - j,
        {
            if same_text(distinct[j].as_str(), types[i].as_str()) {
                known = true;
                assert(distinct@[j as int]@ == types@[i as int]@);
            }
            j = j + 1;
        }
        if !known {
            distinct.push(types[i].clone());
        }
        i = i + 1;
    }
    assert(types@.take(i as int) =~= types@);
    distinct
}

/// The place of the first candidate at or behind `from` with an id.
pub open spec fn candidate_at(list: Seq<Candidate>, id: Seq<char>, from: int) -> Option<int>
    decreases list.len() - from,
{
    if from < 0 || from >= list.len() {
        None
    } else if list[from].entry.id@ == id {
        Some(from)
    } else {
        candidate_at(list, id, from + 1)
    }
}

/// Whether every list up to `upto` holds a candidate with the id.
pub open spec fn in_all(lists: Seq<Vec<Candidate>>, id: Seq<char>, upto: int) -> bool {
    forall|k: int| 0 <= k < upto ==> candidate_at((#[trigger] lists[k])@, id, 0) is Some
}

/// Whether it is the default in every list up to `upto`.
pub open spec fn default_in_all(lists: Seq<Vec<Candidate>>, id: Seq<char>, upto: int) -> bool {
    forall|k: int|
        0 <= k < upto ==> lists[k]@[candidate_at((#[trigger] lists[k])@, id, 0)->0].is_default
}

/// Whether `choice` offers the candidate: it is marked as the default where
/// it is for every type.
pub open spec fn offers(
    choice: AppChoice,
    candidate: Candidate,
    others: Seq<Vec<Candidate>>,
) -> bool {
    &&& choice.id@ == candidate.entry.id@
    &&& choice.name@ == candidate.entry.name@
    &&& choice.terminal == candidate.entry.terminal
    &&& choice.is_default == (candidate.is_default && default_in_all(
        others,
        candidate.entry.id@,
        others.len() as int,
    ))
}

/// Whether the choices offer the candidates at the given places.
pub open spec fn offer_places(
    choices: Seq<AppChoice>,
    places: Seq<int>,
    first: Seq<Candidate>,
    others: Seq<Vec<Candidate>>,
) -> bool {
    &&& choices.len() == places.len()
    &&& forall|c: int|
        0 <= c < choices.len() ==> 0 <= #[trigger] places[c] < first.len() && offers(
            choices[c],
            first[places[c]],
            others,
        )
}

/// The places of the candidates that every other type lists too.
pub open spec fn common_places(first: Seq<Candidate>, others: Seq<Vec<Candidate>>) -> Seq<int>
    decreases first.len(),
{
    if first.len() == 0 {
        Seq::empty()
    } else {
        let before = common_places(first.drop_last(), others);
        if in_all(others, first.last().entry.id@, others.len() as int) {
            before.push(first.len() - 1)
        } else {
            before
        }
    }
}

fn find_candidate(list: &Vec<Candidate>, id: &str) -> (at: Option<usize>)
    ensures
        match at {
            Some(i) => candidate_at(list@, id@, 0) == Some(i as int) && i < list@.len(),
            None => candidate_at(list@, id@, 0) is None,
        },
{
    let mut i: usize = 0;
    while i < list.len()
        invariant
            i <= list@.len(),
            candidate_at(list@, id@, 0) == candidate_at(list@, id@, i as int),
        decreases list@.len() - i,
    {
        if same_text(list[i].entry.id.as_str(), id) {
            return Some(i);
        }
        i = i + 1;
    }
    None
}

/// Whether every list holds a candidate with the id, and whether it is the
/// default in each of them.
fn in_every_list(others: &Vec<Vec<Candidate>>, id: &str) -> (r: (bool, bool))
    ensures
        r.0 == in_all(others@, id@, others@.len() as int),
        r.0 ==> r.1 == default_in_all(others@, id@, others@.len() as int),
{
    let mut everywhere = true;
    let mut default_everywhere = true;
    let mut k: usize = 0;
    while k < others.len()
        invariant
            k <= others@.len(),
            everywhere == in_all(others@, id@, k as int),
            everywhere ==> default_everywhere == default_in_all(others@, id@, k as int),
        decreases others@.len() - k,
    {
        match find_candidate(&others[k], id) {
            Some(at) => {
                let d = others[k][at].is_default;
                proof {
                    assert(in_all(others@, id@, k + 1) == in_all(others@, id@, k as int)) by {
                        if in_all(others@, id@, k as int) {
                            assert forall|j: int| 0 <= j < k + 1 implies candidate_at(
                                (#[trigger] others@[j])@,
                                id@,
                                0,
                            ) is Some by {
                                if j < k {
                                    assert(candidate_at(others@[j]@, id@, 0) is Some);
                                }
                            }
                        }
                        if in_all(others@, id@, k + 1) {
                            assert forall|j: int| 0 <= j < k implies candidate_at(
                                (#[trigger] others@[j])@,
                                id@,
                                0,
                            ) is Some by {}
                        }
                    }
                    assert(default_in_all(others@, id@, k + 1) == (default_in_all(
                        others@,
                        id@,
                        k as int,
                    ) && d)) by {
                        if default_in_all(others@, id@, k + 1) {
                            assert(others@[k as int]@[candidate_at(
                                others@[k as int]@,
                                id@,
                                0,
                            )->0].is_default);
                        }
                        if default_in_all(others@, id@, k as int) && d {
                            assert forall|j: int| 0 <= j < k + 1 implies others@[j]@[
                                candidate_at((#[trigger] others@[j])@, id@, 0)->0].is_default by {
                                if j < k {
                                    assert(others@[j]@[candidate_at(
                                        others@[j]@,
                                        id@,
                                        0,
                                    )->0].is_default);
                                }
                            }
                        }
                    }
                }
                default_everywhere = default_everywhere && d;
            },
            None => {
                everywhere = false;
                assert(!in_all(others@, id@, k + 1)) by {
                    assert(candidate_at(others@[k as int]@, id@, 0) is None);
                }
            },
        }
        k = k + 1;
    }
    (everywhere, default_everywhere)
}

/// The applications that open every one of some files: those of the first
/// type, in their order, that every other type lists too. `others` are the
/// other types' candidates.
pub fn choices_for_many(first: &Vec<Candidate>, others: &Vec<Vec<Candidate>>) -> (choices: Vec<
    AppChoice,
>)
    ensures
        offer_places(choices@, common_places(first@, others@), first@, others@),
{
    let mut choices: Vec<AppChoice> = Vec::new();
    let mut i: usize = 0;
    assert(first@.take(0).len() == 0);
    while i < first.len()
        invariant
            i <= first@.len(),
            offer_places(
                choices@,
                common_places(first@.take(i as int), others@),
                first@.take(i as int),
                others@,
            ),
        decreases first@.len() - i,
    {
        let candidate = &first[i];
        let ghost now = first@.take(i + 1);
        let ghost before = choices@;
        let ghost places = common_places(first@.take(i as int), others@);
        let ghost seen = first@.take(i as int);
        assert(now.drop_last() =~= seen);
        assert(now.last() == *candidate);
        let (everywhere, default_everywhere) = in_every_list(
            others,
            candidate.entry.id.as_str(),
        );
        if everywhere {
            let choice = AppChoice {
                id: candidate.entry.id.clone(),
                name: candidate.entry.name.clone(),
                is_default: candidate.is_default && default_everywhere,
                terminal: candidate.entry.terminal,
            };
            assert(offers(choice, *candidate, others@));
            choices.push(choice);
        }
        i = i + 1;
        proof {
            assert(first@.take(i as int) == now);
            let after = common_places(now, others@);
            assert forall|c: int| 0 <= c < choices@.len() implies 0 <= #[trigger] after[c]
                < now.len() && offers(choices@[c], now[after[c]], others@) by {
                if c < before.len() {
                    assert(choices@[c] == before[c]);
                    assert(after[c] == places[c]);
                    assert(now[places[c]] == seen[places[c]]);
                } else {
                    assert(after[c] == i - 1);
                }
            }
            assert(offer_places(choices@, after, now, others@));
        }
    }
    assert(first@.take(i as int) =~= first@);
    choices
}

/// What is opened with an application that was chosen; why not, where it is
/// no longer there.
pub fn plans_for_choice_many(entry: Option<&DesktopEntry>, id: &str, paths: &Vec<String>) -> (r:
    Result<Vec<LaunchRequest>, String>)
    ensures
        match r {
            Ok(requests) => entry is Some && request_views(requests@) == batches(
                (Launch::Entry(*entry->0), paths@),
            ),
            Err(message) => entry is None && message@ == id@ + " is no longer installed"@,
        },
{
    match entry {
        Some(entry) => {
            let mut requests: Vec<LaunchRequest> = Vec::new();
            assert(request_views(requests@) =~= Seq::<Opened>::empty());
            let run = LaunchRequest { launch: Launch::Entry(entry.clone()), files: copy_texts(paths) };
            let ghost view = request_view(run);
            push_batches(&mut requests, run);
            assert(request_views(requests@) =~= batches(view));
            Ok(requests)
        },
        None => {
            let mut message = id.to_owned();
            message.append(" is no longer installed");
            Err(message)
        },
    }
}

/// Which program, command or application a way to open files is: its sort, and
/// the text that tells it from others of its sort.
pub open spec fn way(launch: Launch) -> (nat, Seq<char>) {
    match launch {
        Launch::Executable { terminal: false } => (0, Seq::empty()),
        Launch::Executable { terminal: true } => (1, Seq::empty()),
        Launch::Command { command, .. } => (2, command@),
        Launch::Entry(entry) => (3, entry.id@),
    }
}

/// Files, each with the way that it is opened.
pub type Openings = Multiset<((nat, Seq<char>), String)>;

/// Some files that are all opened the same way.
pub open spec fn openings_of_run(by: (nat, Seq<char>), files: Seq<String>) -> Openings
    decreases files.len(),
{
    if files.len() == 0 {
        Multiset::empty()
    } else {
        openings_of_run(by, files.drop_last()).insert((by, files.last()))
    }
}

/// The files that are opened.
pub open spec fn openings(opened: Seq<Opened>) -> Openings
    decreases opened.len(),
{
    if opened.len() == 0 {
        Multiset::empty()
    } else {
        openings(opened.drop_last()).add(openings_of_run(way(opened.last().0), opened.last().1))
    }
}

/// The files that something opens, each with the way that it is opened by
/// itself.
pub open spec fn openings_wanted(
    targets: Seq<OpenTarget>,
    launches: Seq<Option<Launch>>,
) -> Openings
    decreases targets.len(),
{
    if targets.len() == 0 {
        Multiset::empty()
    } else {
        let before = openings_wanted(targets.drop_last(), launches);
        match launches[targets.len() - 1] {
            Some(launch) => before.insert((way(launch), targets.last().path)),
            None => before,
        }
    }
}

proof fn lemma_openings_of_push(opened: Seq<Opened>, more: Opened)
    ensures
        openings(opened.push(more)) == openings(opened).add(
            openings_of_run(way(more.0), more.1),
        ),
{
    assert(opened.push(more).drop_last() =~= opened);
}

proof fn lemma_openings_of_both(a: Seq<Opened>, b: Seq<Opened>)
    ensures
        openings(a + b) == openings(a).add(openings(b)),
    decreases b.len(),
{
    if b.len() > 0 {
        lemma_openings_of_both(a, b.drop_last());
        assert((a + b).drop_last() =~= a + b.drop_last());
        assert(openings(a + b) =~= openings(a).add(openings(b)));
    } else {
        assert(a + b =~= a);
        assert(openings(a + b) =~= openings(a).add(openings(b)));
    }
}

proof fn lemma_openings_of_one(by: (nat, Seq<char>), file: String)
    ensures
        openings_of_run(by, seq![file]) == Multiset::<((nat, Seq<char>), String)>::empty().insert(
            (by, file),
        ),
{
    assert(seq![file].drop_last() =~= Seq::<String>::empty());
    assert(openings_of_run(by, Seq::<String>::empty()) == Multiset::<
        ((nat, Seq<char>), String),
    >::empty());
}

proof fn lemma_openings_of_batches(run: Opened)
    ensures
        openings(batches(run)) == openings_of_run(way(run.0), run.1),
    decreases run.1.len(),
{
    if accepts_several(run.0) {
        lemma_openings_of_push(Seq::empty(), run);
        assert(Seq::<Opened>::empty().push(run) =~= batches(run));
        assert(openings(batches(run)) =~= openings_of_run(way(run.0), run.1));
    } else if run.1.len() > 0 {
        let less: Opened = (run.0, run.1.drop_last());
        let last: Opened = (run.0, seq![run.1.last()]);
        lemma_openings_of_batches(less);
        assert(batches(run) =~= batches(less).push(last));
        lemma_openings_of_push(batches(less), last);
        lemma_openings_of_one(way(run.0), run.1.last());
        assert(openings(batches(run)) =~= openings_of_run(way(run.0), run.1));
    }
}

proof fn lemma_openings_of_all_batches(runs: Seq<Opened>)
    ensures
        openings(all_batches(runs)) == openings(runs),
    decreases runs.len(),
{
    if runs.len() > 0 {
        lemma_openings_of_all_batches(runs.drop_last());
        lemma_openings_of_batches(runs.last());
        lemma_openings_of_both(all_batches(runs.drop_last()), batches(runs.last()));
    }
}

proof fn lemma_openings_of_targets(targets: Seq<OpenTarget>, launches: Seq<Option<Launch>>)
    ensures
        openings(programs(targets, launches)).add(openings(runs(targets, launches)))
            == openings_wanted(targets, launches),
    decreases targets.len(),
{
    let done = openings(programs(targets, launches)).add(openings(runs(targets, launches)));
    if targets.len() > 0 {
        let rest = targets.drop_last();
        lemma_openings_of_targets(rest, launches);
        let path = targets.last().path;
        let earlier = runs(rest, launches);
        match launches[targets.len() - 1] {
            None => {},
            Some(Launch::Executable { terminal }) => {
                let more: Opened = (Launch::Executable { terminal }, seq![path]);
                lemma_openings_of_push(programs(rest, launches), more);
                lemma_openings_of_one(way(more.0), path);
            },
            Some(launch) => {
                if earlier.len() > 0 && same_launch(earlier.last().0, launch) {
                    let last = earlier.last();
                    lemma_openings_of_push(earlier.drop_last(), (last.0, last.1.push(path)));
                    assert(last.1.push(path).drop_last() =~= last.1);
                    assert(way(last.0) == way(launch));
                } else {
                    lemma_openings_of_push(earlier, (launch, seq![path]));
                    lemma_openings_of_one(way(launch), path);
                }
            },
        }
        assert(done =~= openings_wanted(targets, launches));
    } else {
        assert(done =~= openings_wanted(targets, launches));
    }
}

/// Every file that something opens is opened once, the way it is opened by
/// itself; every other file is told of.
pub proof fn lemma_every_file_is_opened_or_told_of(
    overrides: Seq<Override>,
    targets: Seq<OpenTarget>,
)
    ensures
        ({
            let launches = launches_of(overrides, targets);
            let opened = programs(targets, launches) + all_batches(runs(targets, launches));
            &&& openings(opened) == openings_wanted(targets, launches)
            &&& openings(opened).len() + refusals(targets, launches).len() == targets.len()
        }),
{
    let launches = launches_of(overrides, targets);
    lemma_openings_of_targets(targets, launches);
    lemma_openings_of_all_batches(runs(targets, launches));
    lemma_openings_of_both(programs(targets, launches), all_batches(runs(targets, launches)));
    lemma_wanted_or_refused(targets, launches);
}

proof fn lemma_wanted_or_refused(targets: Seq<OpenTarget>, launches: Seq<Option<Launch>>)
    ensures
        openings_wanted(targets, launches).len() + refusals(targets, launches).len()
            == targets.len(),
    decreases targets.len(),
{
    if targets.len() > 0 {
        lemma_wanted_or_refused(targets.drop_last(), launches);
    }
}

/// What is left of some requests where only some can be carried out.
pub open spec fn kept_requests(requests: Seq<Opened>, usable: Seq<bool>) -> Seq<Opened>
    decreases requests.len(),
{
    if requests.len() == 0 {
        Seq::empty()
    } else {
        let before = kept_requests(requests.drop_last(), usable);
        if usable[requests.len() - 1] {
            before.push(requests.last())
        } else {
            before
        }
    }
}

/// What is said of the others.
pub open spec fn unusable_texts(requests: Seq<Opened>, usable: Seq<bool>) -> Seq<Seq<char>>
    decreases requests.len(),
{
    if requests.len() == 0 {
        Seq::empty()
    } else {
        let before = unusable_texts(requests.drop_last(), usable);
        if usable[requests.len() - 1] {
            before
        } else {
            before.push(unusable(requests.last().0))
        }
    }
}

/// Keeps the requests that a plan could be made of, and tells of the others
/// behind the errors that there were.
pub fn keep_usable(
    requests: &Vec<LaunchRequest>,
    usable: &Vec<bool>,
    errors: Vec<String>,
) -> (r: (Vec<LaunchRequest>, Vec<String>))
    requires
        usable@.len() == requests@.len(),
    ensures
        request_views(r.0@) == kept_requests(request_views(requests@), usable@),
        texts_of(r.1@) == texts_of(errors@) + unusable_texts(request_views(requests@), usable@),
{
    let ghost views = request_views(requests@);
    let ghost first = texts_of(errors@);
    let mut kept: Vec<LaunchRequest> = Vec::new();
    let mut told = errors;
    let mut i: usize = 0;
    proof {
        assert(request_views(kept@) =~= kept_requests(views.take(0), usable@));
        assert(texts_of(told@) =~= first + unusable_texts(views.take(0), usable@));
    }
    while i < requests.len()
        invariant
            i <= requests@.len(),
            usable@.len() == requests@.len(),
            views == request_views(requests@),
            request_views(kept@) == kept_requests(views.take(i as int), usable@),
            texts_of(told@) == first + unusable_texts(views.take(i as int), usable@),
        decreases requests@.len() - i,
    {
        let ghost kept_before = kept@;
        let ghost told_before = told@;
        let ghost now = views.take(i + 1);
        assert(now.drop_last() =~= views.take(i as int));
        assert(now.last() == request_view(requests@[i as int]));
        if usable[i] {
            let request = LaunchRequest {
                launch: requests[i].launch.clone(),
                files: copy_texts(&requests[i].files),
            };
            assert(request_view(request) == now.last());
            kept.push(request);
            assert(request_views(kept@) =~= request_views(kept_before).push(now.last()));
        } else {
            let text = describe_unusable(&requests[i].launch);
            told.push(text);
            assert(texts_of(told@) =~= texts_of(told_before).push(unusable(now.last().0)));
            assert(texts_of(told@) =~= first + unusable_texts(now, usable@));
        }
        i = i + 1;
    }
    assert(views.take(i as int) =~= views);
    (kept, told)
}

/// The requests for an application that was chosen, where a plan could be made
/// of each of them; else what is said of the first of which none could.
pub fn all_usable(requests: Vec<LaunchRequest>, usable: &Vec<bool>) -> (r: Result<
    Vec<LaunchRequest>,
    String,
>)
    requires
        usable@.len() == requests@.len(),
    ensures
        match r {
            Ok(kept) => kept == requests && forall|i: int|
                0 <= i < usable@.len() ==> #[trigger] usable@[i],
            Err(message) => exists|i: int|
                {
                    &&& 0 <= i < usable@.len()
                    &&& !(#[trigger] usable@[i])
                    &&& forall|j: int| 0 <= j < i ==> usable@[j]
                    &&& message@ == unusable(requests@[i].launch)
                },
        },
{
    let mut i: usize = 0;
    while i < usable.len()
        invariant
            i <= usable@.len(),
            usable@.len() == requests@.len(),
            forall|j: int| 0 <= j < i ==> usable@[j],
        decreases usable@.len() - i,
    {
        if !usable[i] {
            let message = describe_unusable(&requests[i].launch);
            assert(!usable@[i as int]);
            return Err(message);
        }
        i = i + 1;
    }
    Ok(requests)
}

/// How starting an application ended.
#[derive(Debug, PartialEq, Eq)]
pub struct LaunchOutcome {
    pub label: String,
    /// Why it did not start.
    pub error: Option<String>,
}

/// What is said of an application that did not start.
pub open spec fn failure_text(outcome: LaunchOutcome) -> Seq<char> {
    outcome.label@ + ": "@ + outcome.error->0@
}

/// What is said of those that did not start.
pub open spec fn failures(outcomes: Seq<LaunchOutcome>) -> Seq<Seq<char>>
    decreases outcomes.len(),
{
    if outcomes.len() == 0 {
        Seq::empty()
    } else {
        let before = failures(outcomes.drop_last());
        if outcomes.last().error is Some {
            before.push(failure_text(outcomes.last()))
        } else {
            before
        }
    }
}

/// The labels of those that started.
pub open spec fn started(outcomes: Seq<LaunchOutcome>) -> Seq<Seq<char>>
    decreases outcomes.len(),
{
    if outcomes.len() == 0 {
        Seq::empty()
    } else {
        let before = started(outcomes.drop_last());
        if outcomes.last().error is None {
            before.push(outcomes.last().label@)
        } else {
            before
        }
    }
}

/// What is told of opening files: the labels of what started, and of the rest
/// why not, behind what could not be planned at all.
pub fn open_default_many(outcomes: &Vec<LaunchOutcome>, errors: Vec<String>) -> (r: (
    Vec<String>,
    Vec<String>,
))
    ensures
        texts_of(r.0@) == started(outcomes@),
        texts_of(r.1@) == texts_of(errors@) + failures(outcomes@),
{
    let mut labels: Vec<String> = Vec::new();
    let mut told = errors;
    let mut i: usize = 0;
    let ghost start = texts_of(errors@);
    proof {
        assert(texts_of(labels@) =~= started(outcomes@.take(0)));
        assert(texts_of(told@) =~= start + failures(outcomes@.take(0)));
    }
    while i < outcomes.len()
        invariant
            i <= outcomes@.len(),
            texts_of(labels@) == started(outcomes@.take(i as int)),
            texts_of(told@) == start + failures(outcomes@.take(i as int)),
        decreases outcomes@.len() - i,
    {
        let outcome = &outcomes[i];
        let ghost now = outcomes@.take(i + 1);
        let ghost labels_before = labels@;
        let ghost told_before = told@;
        assert(now.drop_last() =~= outcomes@.take(i as int));
        assert(now.last() == *outcome);
        match &outcome.error {
            Some(error) => {
                let mut message = outcome.label.clone();
                message.append(": ");
                message.append(error.as_str());
                told.push(message);
                assert(texts_of(told@) =~= texts_of(told_before).push(failure_text(*outcome)));
                assert(texts_of(told@) =~= start + failures(now));
            },
            None => {
                labels.push(outcome.label.clone());
                assert(texts_of(labels@) =~= texts_of(labels_before).push(outcome.label@));
            },
        }
        i = i + 1;
    }
    assert(outcomes@.take(i as int) =~= outcomes@);
    (labels, told)
}

/// Texts with `; ` between them.
pub open spec fn joined_texts(texts: Seq<Seq<char>>) -> Seq<char>
    decreases texts.len(),
{
    if texts.len() == 0 {
        Seq::empty()
    } else if texts.len() == 1 {
        texts[0]
    } else {
        joined_texts(texts.drop_last()) + "; "@ + texts.last()
    }
}

/// Whether everything started; else one message of all that did not.
pub fn launch_all(outcomes: &Vec<LaunchOutcome>) -> (r: Result<(), String>)
    ensures
        match r {
            Ok(_) => failures(outcomes@).len() == 0,
            Err(message) => failures(outcomes@).len() > 0 && message@ == joined_texts(
                failures(outcomes@),
            ),
        },
{
    let (_, told) = open_default_many(outcomes, Vec::new());
    assert(texts_of(told@) =~= failures(outcomes@));
    if told.len() == 0 {
        assert(failures(outcomes@).len() == 0);
        return Ok(());
    }
    let mut message = told[0].clone();
    let mut i: usize = 1;
    let ghost all = texts_of(told@);
    assert(all.take(1).len() == 1);
    while i < told.len()
        invariant
            1 <= i <= told@.len(),
            all == texts_of(told@),
            message@ == joined_texts(all.take(i as int)),
        decreases told@.len() - i,
    {
        assert(all.take(i + 1).drop_last() =~= all.take(i as int));
        assert(all.take(i + 1).last() == told@[i as int]@);
        message.append("; ");
        message.append(told[i].as_str());
        i = i + 1;
    }
    assert(all.take(i as int) =~= all);
    Err(message)
}

/// Whether a key is the one of the extension that begins behind the `.` at
/// `dot`, which is not a name's first character.
pub open spec fn names_extension(key: Seq<char>, lower_name: Seq<char>, dot: int) -> bool {
    &&& 1 <= dot < lower_name.len()
    &&& lower_name[dot] == '.'
    &&& key == seq!['*', '.'] + lower_name.skip(dot + 1)
}

/// Whether a key is the one of a type's class: what stands before the type's
/// first `/`, then `/*`.
pub open spec fn names_class(key: Seq<char>, mime: Seq<char>) -> bool {
    exists|slash: int|
        {
            &&& 0 <= slash < mime.len()
            &&& #[trigger] mime[slash] == '/'
            &&& !mime.take(slash).contains('/')
            &&& key == mime.take(slash) + seq!['/', '*']
        }
}

proof fn lemma_override_at(overrides: Seq<Override>, key: Seq<char>, from: int)
    requires
        0 <= from,
    ensures
        match override_at(overrides, key, from) {
            Some(at) => from <= at < overrides.len() && overrides[at].key@ == key && forall|k: int|
                from <= k < at ==> (#[trigger] overrides[k]).key@ != key,
            None => forall|k: int|
                from <= k < overrides.len() ==> (#[trigger] overrides[k]).key@ != key,
        },
    decreases overrides.len() - from,
{
    if from < overrides.len() && overrides[from].key@ != key {
        lemma_override_at(overrides, key, from + 1);
    }
}

proof fn lemma_extension_override(overrides: Seq<Override>, lower_name: Seq<char>, from: int)
    requires
        1 <= from,
    ensures
        match extension_override(overrides, lower_name, from) {
            Some(at) => 0 <= at < overrides.len() && exists|dot: int|
                {
                    &&& from <= dot
                    &&& #[trigger] names_extension(overrides[at].key@, lower_name, dot)
                    &&& forall|k: int, d: int|
                        from <= d < dot && 0 <= k < overrides.len()
                            ==> !#[trigger] names_extension(overrides[k].key@, lower_name, d)
                },
            None => forall|k: int, d: int|
                from <= d && 0 <= k < overrides.len() ==> !#[trigger] names_extension(
                    overrides[k].key@,
                    lower_name,
                    d,
                ),
        },
    decreases lower_name.len() - from,
{
    reveal_strlit("*.");
    assert("*."@ =~= seq!['*', '.']);
    if from < lower_name.len() {
        let key = "*."@ + lower_name.skip(from + 1);
        lemma_override_at(overrides, key, 0);
        if lower_name[from] == '.' && override_at(overrides, key, 0) is Some {
            let at = override_at(overrides, key, 0)->0;
            assert(names_extension(overrides[at].key@, lower_name, from));
        } else {
            lemma_extension_override(overrides, lower_name, from + 1);
            assert forall|k: int| 0 <= k < overrides.len() implies !#[trigger] names_extension(
                overrides[k].key@,
                lower_name,
                from,
            ) by {
                assert(overrides[k].key@ == overrides[k].key@);
            }
            match extension_override(overrides, lower_name, from + 1) {
                Some(at) => {
                    let dot = choose|dot: int|
                        {
                            &&& from + 1 <= dot
                            &&& #[trigger] names_extension(overrides[at].key@, lower_name, dot)
                            &&& forall|k: int, d: int|
                                from + 1 <= d < dot && 0 <= k < overrides.len()
                                    ==> !#[trigger] names_extension(
                                    overrides[k].key@,
                                    lower_name,
                                    d,
                                )
                        };
                    assert forall|k: int, d: int|
                        from <= d < dot && 0 <= k < overrides.len() implies !#[trigger] names_extension(
                        overrides[k].key@,
                        lower_name,
                        d,
                    ) by {
                        if d > from {
                            assert(!names_extension(overrides[k].key@, lower_name, d));
                        }
                    }
                    assert(names_extension(overrides[at].key@, lower_name, dot));
                },
                None => {
                    assert forall|k: int, d: int|
                        from <= d && 0 <= k < overrides.len() implies !#[trigger] names_extension(
                        overrides[k].key@,
                        lower_name,
                        d,
                    ) by {
                        if d > from {
                            assert(!names_extension(overrides[k].key@, lower_name, d));
                        }
                    }
                },
            }
        }
    }
}

proof fn lemma_class_key(mime: Seq<char>)
    ensures
        find(mime, '/', 0) < mime.len() ==> forall|key: Seq<char>| #[trigger] names_class(key, mime)
            <==> key == mime.take(find(mime, '/', 0)) + "/*"@,
        find(mime, '/', 0) >= mime.len() ==> forall|key: Seq<char>| !#[trigger] names_class(
            key,
            mime,
        ),
{
    reveal_strlit("/*");
    assert("/*"@ =~= seq!['/', '*']);
    lemma_find(mime, '/', 0);
    let at = find(mime, '/', 0);
    if at < mime.len() {
        assert(mime[at] == '/');
        assert(!mime.take(at).contains('/'));
        assert forall|key: Seq<char>| #[trigger] names_class(key, mime) implies key == mime.take(at)
            + "/*"@ by {
            let slash = choose|slash: int|
                {
                    &&& 0 <= slash < mime.len()
                    &&& #[trigger] mime[slash] == '/'
                    &&& !mime.take(slash).contains('/')
                    &&& key == mime.take(slash) + seq!['/', '*']
                };
            if at < slash {
                assert(mime.take(slash)[at] == '/');
            }
        }
    }
}

/// The override that is chosen is the most specific one. A key that is the
/// file's type goes before every other; else one of an extension, a longer
/// extension before a shorter; one of a class of types is chosen only where no
/// other key fits. Where a key fits, something is chosen; of equal keys the
/// first is.
pub proof fn lemma_most_specific_override(
    overrides: Seq<Override>,
    mime: Seq<char>,
    lower_name: Seq<char>,
    k: int,
    dot: int,
)
    requires
        0 <= k < overrides.len(),
    ensures
        ({
            let place = override_place(overrides, mime, lower_name);
            let typed = exists|i: int|
                0 <= i < overrides.len() && (#[trigger] overrides[i]).key@ == mime;
            let extended = exists|i: int, d: int|
                0 <= i < overrides.len() && #[trigger] names_extension(
                    overrides[i].key@,
                    lower_name,
                    d,
                );
            &&& overrides[k].key@ == mime ==> place is Some && overrides[place->0].key@ == mime
                && place->0 <= k
            &&& !typed && names_extension(overrides[k].key@, lower_name, dot) ==> place is Some
                && exists|d: int|
                    d <= dot && #[trigger] names_extension(
                        overrides[place->0].key@,
                        lower_name,
                        d,
                    )
            &&& !typed && !extended && names_class(overrides[k].key@, mime) ==> place is Some
                && place->0 <= k && names_class(overrides[place->0].key@, mime)
            &&& place is Some ==> {
                let chosen = overrides[place->0].key@;
                &&& 0 <= place->0 < overrides.len()
                &&& ({
                    ||| chosen == mime
                    ||| !typed && exists|d: int| #[trigger] names_extension(chosen, lower_name, d)
                    ||| !typed && !extended && names_class(chosen, mime)
                })
            }
        }),
{
    lemma_override_at(overrides, mime, 0);
    lemma_extension_override(overrides, lower_name, 1);
    lemma_class_key(mime);
    lemma_override_at(overrides, mime.take(find(mime, '/', 0)) + "/*"@, 0);
    assert(overrides[k].key@ == overrides[k].key@);
}

/// A command of the settings opens every file that one is chosen for, whatever
/// else is known of the file.
pub proof fn lemma_overrides_go_first(
    overrides: Seq<Override>,
    target: OpenTarget,
    lower_name: Seq<char>,
)
    requires
        override_place(overrides, target.mime@, lower_name) is Some,
    ensures
        ({
            let chosen = overrides[override_place(overrides, target.mime@, lower_name)->0];
            let launch = launch_of(overrides, target, lower_name);
            &&& launch is Some
            &&& launch->0 is Command
            &&& launch->0->command == chosen.command
            &&& launch->0->accepts_multiple <==> exists|i: int|
                0 <= i < chosen.tokens@.len() && ((#[trigger] chosen.tokens@[i])@ == "%F"@
                    || chosen.tokens@[i]@ == "%U"@)
        }),
{
}

/// A file that may not be run is a document: it is never run as a program, and
/// what opens it is its type's application. One that may be run is run by itself
/// exactly where its type is a program's or a script's, a script in a terminal.
pub proof fn lemma_only_programs_run(
    overrides: Seq<Override>,
    target: OpenTarget,
    lower_name: Seq<char>,
)
    requires
        override_place(overrides, target.mime@, lower_name) is None,
    ensures
        ({
            let launch = launch_of(overrides, target, lower_name);
            let runs = launch is Some && launch->0 is Executable;
            let program = target.mime@ == "application/x-executable"@ || target.mime@
                == "application/x-pie-executable"@ || target.mime@ == "application/vnd.appimage"@
                || target.mime@ == "application/x-appimage"@;
            &&& !target.executable ==> !runs
            &&& target.executable && program ==> runs && !launch->0->terminal
            &&& target.executable && target.mime@ == "application/x-shellscript"@ ==> runs
            &&& runs && !program ==> launch->0->terminal
            &&& !runs ==> match target.default_entry {
                Some(entry) => launch == Some(Launch::Entry(entry)),
                None => launch is None,
            }
        }),
{
}

/// Types are kept once each, in the order in which they first occur: none twice,
/// none left out, none made up, and a type that comes later changes nothing
/// before it.
pub proof fn lemma_each_type_once(types: Seq<String>)
    ensures
        forall|i: int, j: int|
            0 <= i < j < first_occurrences(types).len() ==> (#[trigger] first_occurrences(types)[i])@
                != (#[trigger] first_occurrences(types)[j])@,
        forall|i: int|
            0 <= i < first_occurrences(types).len() ==> types.contains(
                #[trigger] first_occurrences(types)[i],
            ),
        forall|i: int|
            0 <= i < types.len() ==> exists|k: int|
                0 <= k < first_occurrences(types).len() && (#[trigger] first_occurrences(types)[k])@
                    == (#[trigger] types[i])@,
        types.len() > 0 ==> first_occurrences(types.drop_last()).is_prefix_of(
            first_occurrences(types),
        ),
    decreases types.len(),
{
    let found = first_occurrences(types);
    if types.len() > 0 {
        let rest = types.drop_last();
        let before = first_occurrences(rest);
        lemma_each_type_once(rest);
        assert(found.take(before.len() as int) =~= before);
        assert forall|i: int| 0 <= i < found.len() implies types.contains(#[trigger] found[i]) by {
            if i < before.len() {
                assert(rest.contains(before[i]));
                let k = choose|k: int| 0 <= k < rest.len() && rest[k] == before[i];
                assert(types[k] == found[i]);
            } else {
                assert(types[types.len() - 1] == found[i]);
            }
        }
        assert forall|i: int| 0 <= i < types.len() implies exists|k: int|
            0 <= k < found.len() && (#[trigger] found[k])@ == (#[trigger] types[i])@ by {
            if i < rest.len() {
                assert(rest[i] == types[i]);
                let k = choose|k: int| 0 <= k < before.len() && (#[trigger] before[k])@ == rest[i]@;
                assert(found[k]@ == types[i]@);
            } else if holds_text(before, types.last()@) {
                let k = choose|k: int|
                    0 <= k < before.len() && (#[trigger] before[k])@ == types.last()@;
                assert(found[k]@ == types[i]@);
            } else {
                assert(found[found.len() - 1]@ == types[i]@);
            }
        }
        assert forall|i: int, j: int| 0 <= i < j < found.len() implies (#[trigger] found[i])@ != (
        #[trigger] found[j])@ by {
            if j < before.len() {
                assert(before[i]@ != before[j]@);
            } else {
                assert(before[i]@ != types.last()@);
            }
        }
    }
}

proof fn lemma_candidate_at(list: Seq<Candidate>, id: Seq<char>, from: int)
    requires
        0 <= from,
    ensures
        match candidate_at(list, id, from) {
            Some(at) => from <= at < list.len() && list[at].entry.id@ == id,
            None => forall|k: int|
                from <= k < list.len() ==> (#[trigger] list[k]).entry.id@ != id,
        },
    decreases list.len() - from,
{
    if from < list.len() && list[from].entry.id@ != id {
        lemma_candidate_at(list, id, from + 1);
    }
}

/// Whether a list has an application with the id.
pub open spec fn lists_id(list: Seq<Candidate>, id: Seq<char>) -> bool {
    exists|k: int| 0 <= k < list.len() && (#[trigger] list[k]).entry.id@ == id
}

/// Whether a list has the application with the id as its default.
pub open spec fn lists_default(list: Seq<Candidate>, id: Seq<char>) -> bool {
    exists|k: int|
        0 <= k < list.len() && (#[trigger] list[k]).entry.id@ == id && list[k].is_default
}

proof fn lemma_common_places(first: Seq<Candidate>, others: Seq<Vec<Candidate>>)
    ensures
        forall|i: int, j: int|
            0 <= i < j < common_places(first, others).len() ==> common_places(first, others)[i]
                < common_places(first, others)[j],
        forall|p: int|
            #[trigger] common_places(first, others).contains(p) <==> 0 <= p < first.len() && forall|
                k: int,
            |
                0 <= k < others.len() ==> lists_id((#[trigger] others[k])@, first[p].entry.id@),
    decreases first.len(),
{
    let places = common_places(first, others);
    if first.len() > 0 {
        let rest = first.drop_last();
        let n = first.len() - 1;
        let id = first.last().entry.id@;
        lemma_common_places(rest, others);
        let before = common_places(rest, others);
        assert(in_all(others, id, others.len() as int) <==> forall|k: int|
            0 <= k < others.len() ==> lists_id((#[trigger] others[k])@, id)) by {
            assert forall|k: int| 0 <= k < others.len() implies (lists_id(
                (#[trigger] others[k])@,
                id,
            ) <==> candidate_at(others[k]@, id, 0) is Some) by {
                lemma_candidate_at(others[k]@, id, 0);
                if let Some(at) = candidate_at(others[k]@, id, 0) {
                    assert(others[k]@[at].entry.id@ == id);
                }
            }
        }
        assert forall|i: int| 0 <= i < before.len() implies before[i] < n by {
            assert(before.contains(before[i]));
        }
        assert forall|p: int| #[trigger] places.contains(p) <==> 0 <= p < first.len() && forall|k: int|
            0 <= k < others.len() ==> lists_id((#[trigger] others[k])@, first[p].entry.id@) by {
            if before.contains(p) {
                let i = choose|i: int| 0 <= i < before.len() && before[i] == p;
                assert(places[i] == p);
                assert(rest[p] == first[p]);
            }
            if places.contains(p) {
                let i = choose|i: int| 0 <= i < places.len() && places[i] == p;
                if i < before.len() {
                    assert(before[i] == p);
                    assert(before.contains(p));
                }
            }
            if 0 <= p < n {
                assert(rest[p] == first[p]);
                if forall|k: int|
                    0 <= k < others.len() ==> lists_id((#[trigger] others[k])@, first[p].entry.id@) {
                    assert(before.contains(p));
                }
            } else if p == n && in_all(others, id, others.len() as int) {
                assert(places[places.len() - 1] == n);
            }
        }
    }
}

/// The applications that are offered for several types are those of the first
/// that every other type has too, each once, in the first type's order, and no
/// others.
pub proof fn lemma_offered_for_every_type(
    choices: Seq<AppChoice>,
    first: Seq<Candidate>,
    others: Seq<Vec<Candidate>>,
    p: int,
)
    requires
        offer_places(choices, common_places(first, others), first, others),
        0 <= p < first.len(),
    ensures
        ({
            let everywhere = forall|k: int|
                0 <= k < others.len() ==> lists_id((#[trigger] others[k])@, first[p].entry.id@);
            &&& everywhere ==> exists|c: int|
                0 <= c < choices.len() && (#[trigger] choices[c]).id@ == first[p].entry.id@
                    && choices[c].name@ == first[p].entry.name@ && choices[c].terminal
                    == first[p].entry.terminal
            &&& forall|c: int|
                0 <= c < choices.len() ==> lists_id(first, (#[trigger] choices[c]).id@) && forall|
                    k: int,
                |
                    0 <= k < others.len() ==> lists_id((#[trigger] others[k])@, choices[c].id@)
        }),
{
    let places = common_places(first, others);
    lemma_common_places(first, others);
    if forall|k: int|
        0 <= k < others.len() ==> lists_id((#[trigger] others[k])@, first[p].entry.id@) {
        assert(places.contains(p));
        let c = choose|c: int| 0 <= c < places.len() && places[c] == p;
        assert(offers(choices[c], first[places[c]], others));
    }
    assert forall|c: int| 0 <= c < choices.len() implies lists_id(first, (#[trigger] choices[c]).id@)
        && forall|k: int|
        0 <= k < others.len() ==> lists_id((#[trigger] others[k])@, choices[c].id@) by {
        let q = places[c];
        assert(offers(choices[c], first[q], others));
        assert(places.contains(q));
    }
}

/// Applications are offered in the order of the first type, and one is marked as
/// the default only where it is the first type's and every other type's.
pub proof fn lemma_default_of_every_type(
    choices: Seq<AppChoice>,
    first: Seq<Candidate>,
    others: Seq<Vec<Candidate>>,
    c: int,
)
    requires
        offer_places(choices, common_places(first, others), first, others),
        0 <= c < choices.len(),
    ensures
        exists|p: int|
            {
                &&& 0 <= p < first.len()
                &&& (#[trigger] first[p]).entry.id@ == choices[c].id@
                &&& choices[c].is_default ==> first[p].is_default
                &&& first[p].is_default && !choices[c].is_default ==> exists|k: int, j: int|
                    0 <= k < others.len() && 0 <= j < others[k]@.len() && (
                    #[trigger] others[k]@[j]).entry.id@ == choices[c].id@
                        && !others[k]@[j].is_default
            },
        choices[c].is_default ==> forall|k: int|
            0 <= k < others.len() ==> lists_default((#[trigger] others[k])@, choices[c].id@),
        c > 0 ==> exists|p: int, q: int|
            0 <= p < q < first.len() && (#[trigger] first[p]).entry.id@ == choices[c - 1].id@ && (
            #[trigger] first[q]).entry.id@ == choices[c].id@,
{
    let places = common_places(first, others);
    lemma_common_places(first, others);
    let p = places[c];
    let id = choices[c].id@;
    assert(offers(choices[c], first[p], others));
    assert(places.contains(p));
    assert forall|k: int| 0 <= k < others.len() implies candidate_at(
        (#[trigger] others[k])@,
        id,
        0,
    ) is Some && others[k]@[candidate_at(others[k]@, id, 0)->0].entry.id@ == id && 0
        <= candidate_at(others[k]@, id, 0)->0 < others[k]@.len() by {
        lemma_candidate_at(others[k]@, id, 0);
        assert(lists_id(others[k]@, first[p].entry.id@));
    }
    if first[p].is_default && !choices[c].is_default {
        let k = choose|k: int|
            0 <= k < others.len() && !others[k]@[candidate_at(
                (#[trigger] others[k])@,
                id,
                0,
            )->0].is_default;
        let j = candidate_at(others[k]@, id, 0)->0;
        assert(others[k]@[j].entry.id@ == id);
    }
    if choices[c].is_default {
        assert forall|k: int| 0 <= k < others.len() implies lists_default(
            (#[trigger] others[k])@,
            id,
        ) by {
            let j = candidate_at(others[k]@, id, 0)->0;
            assert(others[k]@[j].entry.id@ == id);
        }
    }
    if c > 0 {
        let o = places[c - 1];
        assert(offers(choices[c - 1], first[o], others));
        assert(o < p);
        assert(first[o].entry.id@ == choices[c - 1].id@);
    }
}

/// Requests that can be carried out are kept, in their order; each of the others
/// is told of.
pub proof fn lemma_kept_or_told_of(requests: Seq<Opened>, usable: Seq<bool>, all: Seq<Opened>)
    requires
        requests.len() <= all.len() == usable.len(),
        requests == all.take(requests.len() as int),
    ensures
        kept_requests(requests, usable) == Seq::new(requests.len(), |i: int| i).filter(
            |i: int| usable[i],
        ).map_values(|i: int| all[i]),
        unusable_texts(requests, usable) == Seq::new(requests.len(), |i: int| i).filter(
            |i: int| !usable[i],
        ).map_values(|i: int| unusable(all[i].0)),
        kept_requests(requests, usable).len() + unusable_texts(requests, usable).len()
            == requests.len(),
    decreases requests.len(),
{
    reveal(Seq::filter);
    let places = Seq::new(requests.len(), |i: int| i);
    let keep = |i: int| usable[i];
    let drop = |i: int| !usable[i];
    if requests.len() > 0 {
        let fewer = requests.drop_last();
        assert(fewer =~= all.take(fewer.len() as int));
        lemma_kept_or_told_of(fewer, usable, all);
        assert(places.drop_last() =~= Seq::new(fewer.len(), |i: int| i));
        assert(requests.last() == all[requests.len() - 1]);
    }
    assert(kept_requests(requests, usable) =~= places.filter(keep).map_values(|i: int| all[i]));
    assert(unusable_texts(requests, usable) =~= places.filter(drop).map_values(
        |i: int| unusable(all[i].0),
    ));
}

/// What is said of a request that cannot be carried out names its command or its
/// application.
pub proof fn lemma_unusable_is_named(launch: Launch)
    ensures
        match launch {
            Launch::Command { command, .. } => command@.is_suffix_of(unusable(launch)),
            Launch::Entry(entry) => entry.name@.is_prefix_of(unusable(launch)),
            Launch::Executable { .. } => true,
        },
{
    let text = unusable(launch);
    match launch {
        Launch::Command { command, .. } => {
            assert(text.skip(text.len() - command@.len()) =~= command@);
        },
        Launch::Entry(entry) => {
            assert(text.take(entry.name@.len() as int) =~= entry.name@);
        },
        Launch::Executable { .. } => {},
    }
}

/// What started is told by its label, what did not by its label and the reason,
/// each in its order.
pub proof fn lemma_started_or_failed(outcomes: Seq<LaunchOutcome>)
    ensures
        started(outcomes) == outcomes.filter(|o: LaunchOutcome| o.error is None).map_values(
            |o: LaunchOutcome| o.label@,
        ),
        failures(outcomes) == outcomes.filter(|o: LaunchOutcome| o.error is Some).map_values(
            |o: LaunchOutcome| o.label@ + seq![':', ' '] + o.error->0@,
        ),
        started(outcomes).len() + failures(outcomes).len() == outcomes.len(),
    decreases outcomes.len(),
{
    reveal(Seq::filter);
    reveal_strlit(": ");
    assert(": "@ =~= seq![':', ' ']);
    if outcomes.len() > 0 {
        lemma_started_or_failed(outcomes.drop_last());
    }
    assert(started(outcomes) =~= outcomes.filter(|o: LaunchOutcome| o.error is None).map_values(
        |o: LaunchOutcome| o.label@,
    ));
    assert(failures(outcomes) =~= outcomes.filter(|o: LaunchOutcome| o.error is Some).map_values(
        |o: LaunchOutcome| o.label@ + seq![':', ' '] + o.error->0@,
    ));
}

/// Messages are told in their order, with a semicolon and a space between each
/// two.
pub proof fn lemma_joined_in_order(texts: Seq<Seq<char>>, last: Seq<char>)
    ensures
        texts.len() > 0 ==> joined_texts(texts.push(last)) == joined_texts(texts) + seq![';', ' ']
            + last,
        joined_texts(seq![last]) == last,
{
    reveal_strlit("; ");
    assert("; "@ =~= seq![';', ' ']);
    assert(texts.push(last).drop_last() =~= texts);
}

/// The targets that nothing opens are told of, each by its type and its name,
/// in their order, and no others.
pub proof fn lemma_refused_targets(
    targets: Seq<OpenTarget>,
    launches: Seq<Option<Launch>>,
    all: Seq<OpenTarget>,
)
    requires
        targets.len() <= all.len() == launches.len(),
        targets == all.take(targets.len() as int),
    ensures
        refusals(targets, launches) == Seq::new(targets.len(), |i: int| i).filter(
            |i: int| launches[i] is None,
        ).map_values(
            |i: int|
                "No application is associated with "@ + all[i].mime@ + " ("@ + (
                match path_file_name(all[i].path@) {
                    Some(name) => name,
                    None => Seq::empty(),
                }) + ")"@,
        ),
    decreases targets.len(),
{
    reveal(Seq::filter);
    let places = Seq::new(targets.len(), |i: int| i);
    let refused = |i: int| launches[i] is None;
    let told = |i: int|
        "No application is associated with "@ + all[i].mime@ + " ("@ + (match path_file_name(
            all[i].path@,
        ) {
            Some(name) => name,
            None => Seq::empty(),
        }) + ")"@;
    if targets.len() > 0 {
        let fewer = targets.drop_last();
        assert(fewer =~= all.take(fewer.len() as int));
        lemma_refused_targets(fewer, launches, all);
        assert(places.drop_last() =~= Seq::new(fewer.len(), |i: int| i));
        assert(targets.last() == all[targets.len() - 1]);
    }
    assert(refusals(targets, launches) =~= places.filter(refused).map_values(told));
}

/// Whether two ways to open files are one command or one application.
pub open spec fn one_way(a: Launch, b: Launch) -> bool {
    ||| a is Command && b is Command && a->command@ == b->command@
    ||| a is Entry && b is Entry && a->Entry_0.id@ == b->Entry_0.id@
}

/// Files that follow one another and are opened the same way stand in one run,
/// and no two runs that follow one another are opened the same way. Programs are
/// in no run.
pub proof fn lemma_runs_are_as_long_as_they_can_be(
    targets: Seq<OpenTarget>,
    launches: Seq<Option<Launch>>,
)
    requires
        targets.len() <= launches.len(),
    ensures
        forall|i: int|
            0 <= i < runs(targets, launches).len() - 1 ==> !one_way(
                (#[trigger] runs(targets, launches)[i]).0,
                runs(targets, launches)[i + 1].0,
            ),
        forall|i: int|
            0 <= i < runs(targets, launches).len() ==> (#[trigger] runs(targets, launches)[i]).1.len()
                > 0 && !(runs(targets, launches)[i].0 is Executable),
        targets.len() > 0 && launches[targets.len() - 1] is Some && !(
        launches[targets.len() - 1]->0 is Executable) ==> {
            let last = runs(targets, launches).last();
            &&& runs(targets, launches).len() > 0
            &&& one_way(last.0, launches[targets.len() - 1]->0)
            &&& last.1.last() == targets.last().path
        },
    decreases targets.len(),
{
    if targets.len() > 0 {
        let before = runs(targets.drop_last(), launches);
        lemma_runs_are_as_long_as_they_can_be(targets.drop_last(), launches);
        let now = runs(targets, launches);
        assert forall|i: int| 0 <= i < now.len() - 1 implies !one_way(
            (#[trigger] now[i]).0,
            now[i + 1].0,
        ) by {
            if i + 1 < before.len() {
                assert(!one_way(before[i].0, before[i + 1].0));
                assert(now[i].0 == before[i].0);
                assert(now[i + 1].0 == before[i + 1].0);
            }
        }
        assert forall|i: int| 0 <= i < now.len() implies (#[trigger] now[i]).1.len() > 0 && !(
        now[i].0 is Executable) by {
            if i < before.len() {
                assert(before[i].1.len() > 0);
            }
        }
    }
}

/// A run whose application takes several files is opened at once, any other file
/// by file, in their order.
pub proof fn lemma_run_is_opened(run: Opened, i: int)
    requires
        0 <= i < run.1.len(),
    ensures
        ({
            let several = match run.0 {
                Launch::Executable { .. } => false,
                Launch::Command { accepts_multiple, .. } => accepts_multiple,
                Launch::Entry(entry) => entry.accepts_multiple,
            };
            &&& several ==> batches(run) == seq![run]
            &&& !several ==> batches(run).len() == run.1.len() && batches(run)[i].0 == run.0
                && batches(run)[i].1 == seq![run.1[i]]
        }),
{
}

/// Programs are started each by itself, in their order.
pub proof fn lemma_programs_start_alone(
    targets: Seq<OpenTarget>,
    launches: Seq<Option<Launch>>,
    all: Seq<OpenTarget>,
)
    requires
        targets.len() <= all.len() == launches.len(),
        targets == all.take(targets.len() as int),
    ensures
        programs(targets, launches) == Seq::new(targets.len(), |i: int| i).filter(
            |i: int| launches[i] is Some && launches[i]->0 is Executable,
        ).map_values(|i: int| (launches[i]->0, seq![all[i].path])),
    decreases targets.len(),
{
    reveal(Seq::filter);
    let places = Seq::new(targets.len(), |i: int| i);
    let runs_alone = |i: int| launches[i] is Some && launches[i]->0 is Executable;
    if targets.len() > 0 {
        let fewer = targets.drop_last();
        assert(fewer =~= all.take(fewer.len() as int));
        lemma_programs_start_alone(fewer, launches, all);
        assert(places.drop_last() =~= Seq::new(fewer.len(), |i: int| i));
        assert(targets.last() == all[targets.len() - 1]);
    }
    assert(programs(targets, launches) =~= places.filter(runs_alone).map_values(
        |i: int| (launches[i]->0, seq![all[i].path]),
    ));
}

/// Each target is opened by its own type, its own name and its own right to be
/// run: what is opened with it does not matter.
pub proof fn lemma_targets_are_opened_by_themselves(
    overrides: Seq<Override>,
    targets: Seq<OpenTarget>,
    i: int,
)
    requires
        0 <= i < targets.len(),
    ensures
        launches_of(overrides, targets).len() == targets.len(),
        launches_of(overrides, targets)[i] == launches_of(overrides, seq![targets[i]])[0],
        launches_of(overrides, targets)[i] == launch_of(
            overrides,
            targets[i],
            lowercase(
                match path_file_name(targets[i].path@) {
                    Some(name) => name,
                    None => Seq::empty(),
                },
            ),
        ),
{
}

/// A file that something opens resolves to what opens it; any other to a message
/// that names its type and its name.
pub proof fn lemma_resolved(
    resolved: Result<Launch, String>,
    overrides: Seq<Override>,
    target: OpenTarget,
)
    requires
        resolves_to(resolved, overrides, target),
    ensures
        match launches_of(overrides, seq![target])[0] {
            Some(launch) => resolved == Ok::<Launch, String>(launch),
            None => resolved is Err && (target.mime@ + " ("@ + (match path_file_name(target.path@) {
                Some(name) => name,
                None => Seq::empty(),
            }) + ")"@).is_suffix_of(resolved->Err_0@),
        },
{
    if let Err(message) = resolved {
        let tail = target.mime@ + " ("@ + (match path_file_name(target.path@) {
            Some(name) => name,
            None => Seq::empty(),
        }) + ")"@;
        assert(message@.skip(message@.len() - tail.len()) =~= tail);
    }
}

/// What files resolved to is taken in its order: the ways to open them, each at
/// its file's place, and the messages of the others.
pub proof fn lemma_resolutions_in_order(resolved: Seq<Result<Launch, String>>)
    ensures
        launches_given(resolved).len() == resolved.len(),
        forall|i: int|
            0 <= i < resolved.len() ==> (#[trigger] launches_given(resolved)[i] is Some
                <==> resolved[i] is Ok),
        forall|i: int|
            0 <= i < resolved.len() && resolved[i] is Ok ==> #[trigger] launches_given(resolved)[i]
                == Some(resolved[i]->Ok_0),
        messages(resolved) == resolved.filter(|r: Result<Launch, String>| r is Err).map_values(
            |r: Result<Launch, String>| r->Err_0@,
        ),
    decreases resolved.len(),
{
    reveal(Seq::filter);
    if resolved.len() > 0 {
        lemma_resolutions_in_order(resolved.drop_last());
    }
    assert(messages(resolved) =~= resolved.filter(
        |r: Result<Launch, String>| r is Err,
    ).map_values(|r: Result<Launch, String>| r->Err_0@));
}

/// Runs are opened one behind the other.
pub proof fn lemma_runs_in_order(runs: Seq<Opened>, run: Opened)
    ensures
        all_batches(runs.push(run)) == all_batches(runs) + batches(run),
        all_batches(Seq::empty()).len() == 0,
{
    assert(runs.push(run).drop_last() =~= runs);
}

/// Of the files that may be run, scripts run in a terminal: those of the shell,
/// of Python, Perl and Ruby, of JavaScript and of Lua.
pub proof fn lemma_scripts_run_in_a_terminal(
    overrides: Seq<Override>,
    target: OpenTarget,
    lower_name: Seq<char>,
)
    requires
        override_place(overrides, target.mime@, lower_name) is None,
        target.executable,
    ensures
        ({
            let launch = launch_of(overrides, target, lower_name);
            let mime = target.mime@;
            let script = mime == "application/x-shellscript"@ || mime == "text/x-shellscript"@
                || mime == "text/x-python"@ || mime == "text/x-python3"@ || mime
                == "application/x-python"@ || mime == "application/x-perl"@ || mime
                == "text/x-perl"@ || mime == "application/x-ruby"@ || mime == "text/x-ruby"@
                || mime == "application/javascript"@ || mime == "text/javascript"@ || mime
                == "text/x-lua"@;
            let in_terminal = launch is Some && launch->0 is Executable && launch->0->terminal;
            &&& in_terminal ==> script
            &&& script ==> launch is Some && launch->0 is Executable
        }),
{
}

} // verus!
