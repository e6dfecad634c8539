//! Decisions about the host: which interface to attach to, in which mode, and
//! which file changes call for a reload.

use vstd::prelude::*;
use crate::text::{chars_of, contents, fields, lines, same_text, split_fields, split_lines, string_of};

verus! {

/// The destination, and the mask, that mark the default route.
pub const UNSPECIFIED: &'static str = "00000000";

/// The interface of the first default route, `0.0.0.0/0`, among the lines from `i`
/// on. Columns: Iface, Destination, Gateway, Flags, RefCnt, Use, Metric, Mask, ... A
/// line that does not reach the mask goes by its destination alone.
pub open spec fn default_route(table: Seq<Seq<char>>, i: int) -> Option<Seq<char>>
    decreases table.len() - i,
{
    if i >= table.len() {
        None
    } else {
        let cols = fields(table[i]);
        if cols.len() >= 2 && cols[1] == UNSPECIFIED@ && (cols.len() < 8 || cols[7] == UNSPECIFIED@) {
            Some(cols[0])
        } else {
            default_route(table, i + 1)
        }
    }
}

/// Find the interface that owns the default route in the text of the host route
/// table (`/proc/net/route`), whose first line is a heading.
pub fn detect_default_iface(route: &str) -> (iface: Option<String>)
    ensures
        match iface {
            Some(name) => default_route(lines(route@), 1) == Some(name@),
            None => default_route(lines(route@), 1) is None,
        },
{
    let chars = chars_of(route);
    let table = split_lines(chars.as_slice());
    let ghost all = lines(route@);
    assert(contents(table@) == all);
    let mut i: usize = 1;
    while i < table.len()
        invariant
            1 <= i,
            all == lines(route@),
            contents(table@) == all,
            default_route(all, i as int) == default_route(all, 1),
        decreases table@.len() - i,
    {
        let cols = split_fields(table[i].as_slice());
        assert(table@[i as int]@ == all[i as int]);
        assert(contents(cols@) == fields(all[i as int]));
        if cols.len() >= 2 {
            assert(cols@[0]@ == fields(all[i as int])[0]);
            assert(cols@[1]@ == fields(all[i as int])[1]);
            assert(cols@.len() >= 8 ==> cols@[7]@ == fields(all[i as int])[7]);
            if same_text(cols[1].as_slice(), UNSPECIFIED) && (cols.len() < 8 || same_text(
                cols[7].as_slice(),
                UNSPECIFIED,
            )) {
                return Some(string_of(cols[0].as_slice()));
            }
        }
        i = i + 1;
    }
    None
}

/// Where the XDP program runs.
#[derive(Debug, Clone, Copy, PartialEq, Eq, Structural)]
pub enum AttachMode {
    /// In the generic network stack; works everywhere.
    Skb,
    /// In the driver.
    Native,
    /// On the card.
    Hardware,
}

/// The modes to try for a configured mode, in order. Anything that names no mode
/// means "native, else generic".
pub open spec fn modes_for(mode: Seq<char>) -> Seq<AttachMode> {
    if mode == "skb"@ {
        seq![AttachMode::Skb]
    } else if mode == "drv"@ || mode == "native"@ {
        seq![AttachMode::Native]
    } else if mode == "hw"@ {
        seq![AttachMode::Hardware]
    } else {
        seq![AttachMode::Native, AttachMode::Skb]
    }
}

/// The mode to try once `tried` of the modes have failed.
pub open spec fn mode_after(modes: Seq<AttachMode>, tried: int) -> Option<AttachMode> {
    if tried < modes.len() {
        Some(modes[tried])
    } else {
        None
    }
}

/// The attempts to attach the XDP program: `tried` of the modes have failed.
pub struct Attach {
    pub modes: Vec<AttachMode>,
    pub tried: usize,
}

impl Attach {
    pub open spec fn wf(&self) -> bool {
        self.tried <= self.modes@.len()
    }

    /// Attempts honouring the configured mode, falling back from native (driver)
    /// to SKB mode when "auto" is requested.
    pub fn new(mode: &str) -> (a: Self)
        ensures
            a.wf(),
            a.modes@ == modes_for(mode@),
            a.tried == 0,
    {
        let chars = chars_of(mode);
        let modes: Vec<AttachMode> = if same_text(chars.as_slice(), "skb") {
            vec![AttachMode::Skb]
        } else if same_text(chars.as_slice(), "drv") || same_text(chars.as_slice(), "native") {
            vec![AttachMode::Native]
        } else if same_text(chars.as_slice(), "hw") {
            vec![AttachMode::Hardware]
        } else {
            vec![AttachMode::Native, AttachMode::Skb]
        };
        assert(modes@ =~= modes_for(mode@));
        Attach { modes, tried: 0 }
    }

    /// The mode to try next; `None` once every one has failed. Modes that failed are not
    /// tried again.
    pub fn next(&self) -> (mode: Option<AttachMode>)
        ensures
            mode == (if self.tried < self.modes@.len() {
                Some(self.modes@[self.tried as int])
            } else {
                None
            }),
            mode == mode_after(self.modes@, self.tried as int),
    {
        if self.tried < self.modes.len() {
            Some(self.modes[self.tried])
        } else {
            None
        }
    }

    /// Note that the mode tried last has failed.
    pub fn failed(&mut self)
        requires
            old(self).tried < old(self).modes@.len(),
        ensures
            final(self).wf(),
            final(self).modes@ == old(self).modes@,
            final(self).tried == old(self).tried + 1,
    {
        let len: usize = self.modes.len();
        assert(self.tried < len);
        self.tried = self.tried + 1;
    }
}

/// The name of a mode, for people to read.
pub fn mode_name(mode: AttachMode) -> (name: &'static str)
    ensures
        name@ == (match mode {
            AttachMode::Skb => "skb"@,
            AttachMode::Native => "native"@,
            AttachMode::Hardware => "hardware"@,
        }),
{
    match mode {
        AttachMode::Skb => "skb",
        AttachMode::Native => "native",
        AttachMode::Hardware => "hardware",
    }
}

/// Law: there is always a mode to try, the automatic choice tries the driver
/// first and the generic mode last, and a forced mode is tried alone.
pub proof fn attach_tries_the_configured_modes(mode: Seq<char>)
    ensures
        1 <= modes_for(mode).len() <= 2,
        modes_for("auto"@) == seq![AttachMode::Native, AttachMode::Skb],
        mode == "skb"@ || mode == "drv"@ || mode == "native"@ || mode == "hw"@ ==> modes_for(
            mode,
        ).len() == 1,
{
    reveal_strlit("auto");
    reveal_strlit("skb");
    reveal_strlit("drv");
    reveal_strlit("native");
    reveal_strlit("hw");
    assert("auto"@.len() == 4 && "skb"@.len() == 3 && "drv"@.len() == 3 && "native"@.len() == 6
        && "hw"@.len() == 2);
}

/// What happened to a watched file.
#[derive(Debug, Clone, Copy, PartialEq, Eq, Structural)]
pub enum ChangeKind {
    Modify,
    Create,
    Remove,
    /// Anything else, such as being read.
    Other,
}

/// Whether a change calls for a reload: the config file itself was modified,
/// created or removed. A config path without a file name matches any file.
pub open spec fn calls_for_reload(
    kind: ChangeKind,
    config_name: Option<Seq<u8>>,
    touched: Seq<Option<Seq<u8>>>,
) -> bool {
    &&& kind != ChangeKind::Other
    &&& config_name is Some ==> touched.contains(config_name)
}

/// The contents of an optional name.
pub open spec fn name_view(name: Option<Vec<u8>>) -> Option<Seq<u8>> {
    match name {
        Some(bytes) => Some(bytes@),
        None => None,
    }
}

fn same_bytes(a: &[u8], b: &[u8]) -> (same: bool)
    ensures
        same == (a@ == b@),
{
    if a.len() != b.len() {
        return false;
    }
    let mut i: usize = 0;
    while i < a.len()
        invariant
            i <= a@.len(),
            a@.len() == b@.len(),
            forall|k: int| 0 <= k < i ==> a@[k] == b@[k],
        decreases a@.len() - i,
    {
        if a[i] != b[i] {
            return false;
        }
        i = i + 1;
    }
    assert(a@ =~= b@);
    true
}

/// Whether a change calls for a reload. `touched` holds the file names of the
/// paths the change is about.
pub fn is_config_change(
    kind: ChangeKind,
    config_name: &Option<Vec<u8>>,
    touched: &[Option<Vec<u8>>],
) -> (reload: bool)
    ensures
        reload == calls_for_reload(
            kind,
            name_view(*config_name),
            touched@.map_values(|name: Option<Vec<u8>>| name_view(name)),
        ),
{
    let ghost names = touched@.map_values(|name: Option<Vec<u8>>| name_view(name));
    if kind == ChangeKind::Other {
        return false;
    }
    let wanted = match config_name {
        Some(name) => name,
        None => return true,
    };
    let mut i: usize = 0;
    while i < touched.len()
        invariant
            i <= touched@.len(),
            kind != ChangeKind::Other,
            *config_name == Some(*wanted),
            names == touched@.map_values(|name: Option<Vec<u8>>| name_view(name)),
            forall|k: int| 0 <= k < i ==> #[trigger] names[k] != Some(wanted@),
        decreases touched@.len() - i,
    {
        if let Some(name) = &touched[i] {
            if same_bytes(name.as_slice(), wanted.as_slice()) {
                assert(names[i as int] == Some(wanted@));
                return true;
            }
        }
        i = i + 1;
    }
    false
}

/// The directory to watch for a config file whose path has the given parent.
pub open spec fn watched(parent: Option<Seq<u8>>) -> Seq<u8> {
    match parent {
        Some(dir) => if dir.len() > 0 {
            dir
        } else {
            seq![46u8]
        },
        None => seq![46u8],
    }
}

/// The directory to watch for a config file whose path has the given parent:
/// watching the directory rather than the file survives editors that rename on
/// save.
pub fn watch_target(parent: Option<Vec<u8>>) -> (dir: Vec<u8>)
    ensures
        dir@ == (if parent is Some && parent->0@.len() > 0 {
            parent->0@
        } else {
            seq![46u8]
        }),
        dir@ == watched(name_view(parent)),
{
    if let Some(dir) = parent {
        if dir.len() > 0 {
            return dir;
        }
    }
    let dir: Vec<u8> = vec![46];
    assert(dir@ =~= seq![46u8]);
    dir
}

/// A line of the route table that gives the default route: its destination is all zeroes,
/// and so is its mask, if the line reaches that far.
pub open spec fn is_default_route(line: Seq<char>) -> bool {
    &&& fields(line).len() >= 2
    &&& fields(line)[1] == "00000000"@
    &&& fields(line).len() >= 8 ==> fields(line)[7] == "00000000"@
}

proof fn lemma_default_route(table: Seq<Seq<char>>, i: int, k: int)
    requires
        0 <= i <= k <= table.len(),
        forall|j: int| i <= j < k ==> !is_default_route(#[trigger] table[j]),
        k < table.len() ==> is_default_route(table[k]),
    ensures
        k < table.len() ==> default_route(table, i) == Some(fields(table[k])[0]),
        k == table.len() ==> default_route(table, i) is None,
    decreases k - i,
{
    if i < k {
        assert(!is_default_route(table[i]));
        lemma_default_route(table, i + 1, k);
    }
}

/// Law: the interface is the one that the first line, after the heading, with the default
/// route names, however many lines come before it. Without such a line there is none.
/// `k` is where the line stands, or the number of lines.
pub proof fn the_first_default_route_counts(table: Seq<Seq<char>>, k: int)
    requires
        1 <= k,
        forall|j: int| 1 <= j < k && j < table.len() ==> !is_default_route(#[trigger] table[j]),
        k < table.len() ==> is_default_route(table[k]),
    ensures
        k < table.len() ==> default_route(table, 1) == Some(fields(table[k])[0]),
        k >= table.len() ==> default_route(table, 1) is None,
{
    if table.len() >= 1 {
        let end: int = if k < table.len() {
            k
        } else {
            table.len() as int
        };
        lemma_default_route(table, 1, end);
    }
}

/// Law: which modes are tried. A mode that is named is the only one, and any other text
/// means the driver first and the generic mode after it.
pub proof fn named_modes_are_the_only_ones(mode: Seq<char>)
    ensures
        modes_for("skb"@) == seq![AttachMode::Skb],
        modes_for("drv"@) == seq![AttachMode::Native],
        modes_for("native"@) == seq![AttachMode::Native],
        modes_for("hw"@) == seq![AttachMode::Hardware],
        mode != "skb"@ && mode != "drv"@ && mode != "native"@ && mode != "hw"@ ==> modes_for(mode)
            == seq![AttachMode::Native, AttachMode::Skb],
{
    reveal_strlit("skb");
    reveal_strlit("drv");
    reveal_strlit("native");
    reveal_strlit("hw");
    assert("skb"@.len() == 3 && "drv"@.len() == 3 && "native"@.len() == 6 && "hw"@.len() == 2);
    assert("skb"@[0] != "drv"@[0]);
}

/// Law: a change calls for a reload exactly if a file was modified, created or removed, and
/// the config file is among the files it is about. Without a name of the config file any
/// file will do.
pub proof fn changes_of_the_config_file_call_for_a_reload(
    kind: ChangeKind,
    name: Seq<u8>,
    touched: Seq<Option<Seq<u8>>>,
)
    ensures
        calls_for_reload(kind, Some(name), touched) <==> {
            &&& kind == ChangeKind::Modify || kind == ChangeKind::Create || kind
                == ChangeKind::Remove
            &&& exists|i: int| 0 <= i < touched.len() && #[trigger] touched[i] == Some(name)
        },
        calls_for_reload(kind, None, touched) <==> kind == ChangeKind::Modify || kind
            == ChangeKind::Create || kind == ChangeKind::Remove,
{
}

/// Law: the modes are tried one after the other, from the first on, and none is left once
/// all of them have failed.
pub proof fn modes_are_tried_in_order(modes: Seq<AttachMode>, tried: int)
    ensures
        0 <= tried < modes.len() ==> mode_after(modes, tried) == Some(modes[tried]),
        tried >= modes.len() ==> mode_after(modes, tried) is None,
{
}

/// Law: the directory to watch is the parent of the config file, whatever it is called, and
/// the current one if that is empty or missing.
pub proof fn the_parent_directory_is_watched(parent: Seq<u8>)
    ensures
        parent.len() > 0 ==> watched(Some(parent)) == parent,
        parent.len() == 0 ==> watched(Some(parent)) == seq![46u8],
        watched(None) == seq![46u8],
{
}

} // verus!
