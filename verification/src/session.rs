//! SSH sessions behind a polling interface. The table keeps what has arrived for each session until
//! it is asked for; the caller runs the connections, reports what they bring, and carries out what
//! the functions hand back.
//!
//! What `recv` returns, over all its calls, is exactly what the remote shell produced: in order,
//! with nothing lost and nothing twice.
use crate::text::append_bytes;
use std::collections::HashMap;
use vstd::prelude::*;

verus! {

broadcast use vstd::std_specs::hash::group_hash_axioms;

// ---------------------------------------------------------------------------
// The table

/// A shell: the way to its task, what has arrived from it, and whether it is open. The serial
/// number tells it from earlier shells of the same session.
struct Shell<T> {
    tx: T,
    serial: u64,
    inbound: Vec<u8>,
    open: bool,
}

/// A session: its connection, and its shell once it has one.
struct Entry<H, T> {
    handle: H,
    shell: Option<Shell<T>>,
}

/// A shell, over sequences.
pub struct ShellView<T> {
    pub tx: T,
    pub serial: u64,
    pub inbound: Seq<u8>,
    pub open: bool,
}

/// A session, over sequences.
pub struct EntryView<H, T> {
    pub handle: H,
    pub shell: Option<ShellView<T>>,
}

impl<T> View for Shell<T> {
    type V = ShellView<T>;

    closed spec fn view(&self) -> ShellView<T> {
        ShellView { tx: self.tx, serial: self.serial, inbound: self.inbound@, open: self.open }
    }
}

impl<H, T> View for Entry<H, T> {
    type V = EntryView<H, T>;

    closed spec fn view(&self) -> EntryView<H, T> {
        EntryView {
            handle: self.handle,
            shell: match self.shell {
                Some(s) => Some(s@),
                None => None,
            },
        }
    }
}

/// The table of sessions, by handle. `H` is a connection and `T` the way to the task of a shell.
pub struct Registry<H, T> {
    entries: HashMap<i32, Entry<H, T>>,
    next: u32,
    serial: u64,
}

/// The table of sessions, over maps.
pub struct RegistryView<H, T> {
    pub entries: Map<i32, EntryView<H, T>>,
    /// The next handle that is given out.
    pub next: nat,
    /// The serial number of the next shell.
    pub serial: nat,
}

impl<H, T> View for Registry<H, T> {
    type V = RegistryView<H, T>;

    closed spec fn view(&self) -> RegistryView<H, T> {
        RegistryView {
            entries: self.entries@.map_values(|e: Entry<H, T>| e@),
            next: self.next as nat,
            serial: self.serial as nat,
        }
    }
}

impl<H, T> RegistryView<H, T> {
    /// The shell of a session.
    pub open spec fn shell(self, id: i32) -> Option<ShellView<T>> {
        if self.entries.contains_key(id) {
            self.entries[id].shell
        } else {
            None
        }
    }

    /// The table with another shell for a session.
    pub open spec fn with_shell(self, id: i32, shell: ShellView<T>) -> Self {
        RegistryView {
            entries: self.entries.insert(
                id,
                EntryView { shell: Some(shell), ..self.entries[id] },
            ),
            ..self
        }
    }

    /// Whether the shell of a session is open.
    pub open spec fn is_open(self, id: i32) -> bool {
        self.shell(id) matches Some(s) && s.open
    }

    /// The table after a connection was registered, if there was one and a handle was left.
    pub open spec fn connected(self, connected: Option<H>) -> Self {
        match connected {
            Some(handle) if self.next < 0x8000_0000 => RegistryView {
                entries: self.entries.insert(self.next as i32, EntryView { handle, shell: None }),
                next: self.next + 1,
                ..self
            },
            _ => self,
        }
    }

    /// Whether a session can be given a fresh shell.
    pub open spec fn can_open(self, id: i32) -> bool {
        self.entries.contains_key(id) && self.serial < u64::MAX
    }

    /// The table after a session was given a fresh shell, if one was opened and it can be given one.
    pub open spec fn opened(self, id: i32, opened: Option<T>) -> Self {
        match opened {
            Some(tx) if self.can_open(id) => RegistryView {
                serial: self.serial + 1,
                ..self.with_shell(
                    id,
                    ShellView {
                        tx,
                        serial: self.serial as u64,
                        inbound: Seq::empty(),
                        open: true,
                    },
                )
            },
            _ => self,
        }
    }

    /// The table after the channel of a shell brought a message.
    pub open spec fn delivered(self, id: i32, serial: u64, m: Message) -> Self {
        match self.shell(id) {
            Some(s) if s.serial == serial => self.with_shell(id, delivered(s, m)),
            _ => self,
        }
    }

    /// The table after the task of a shell has finished.
    pub open spec fn finished(self, id: i32, serial: u64) -> Self {
        match self.shell(id) {
            Some(s) if s.serial == serial => self.with_shell(id, ShellView { open: false, ..s }),
            _ => self,
        }
    }

    /// The table after everything that arrived for a session was taken.
    pub open spec fn received(self, id: i32) -> Self {
        match self.shell(id) {
            Some(s) => self.with_shell(id, drained(s)),
            None => self,
        }
    }

    /// The table after a session was ended.
    pub open spec fn closed(self, id: i32) -> Self {
        RegistryView { entries: self.entries.remove(id), ..self }
    }
}

impl<H, T> Registry<H, T> {
    /// Handles are given out in order from 0, none twice, and serial numbers likewise.
    pub open spec fn wf(&self) -> bool {
        &&& self@.next <= 0x8000_0000
        &&& forall|id: i32| #[trigger]
            self@.entries.contains_key(id) ==> 0 <= id < self@.next && (
            self@.entries[id].shell matches Some(s) ==> s.serial < self@.serial)
    }

    /// A table without sessions.
    pub fn new() -> (r: Self)
        ensures
            r.wf(),
            r@ == (RegistryView::<H, T> { entries: Map::empty(), next: 0, serial: 0 }),
    {
        let r = Registry { entries: HashMap::new(), next: 0, serial: 0 };
        assert(r@.entries =~= Map::<i32, EntryView<H, T>>::empty());
        r
    }

    /// The connection of a session.
    pub fn handle_of(&self, id: i32) -> (r: Option<&H>)
        ensures
            match r {
                Some(h) => self@.entries.contains_key(id) && self@.entries[id].handle == *h,
                None => !self@.entries.contains_key(id),
            },
    {
        match self.entries.get(&id) {
            Some(e) => Some(&e.handle),
            None => None,
        }
    }

    /// The shell of a session.
    fn shell_of(&self, id: i32) -> (r: Option<&Shell<T>>)
        ensures
            match r {
                Some(s) => self@.shell(id) == Some(s@),
                None => self@.shell(id) is None,
            },
    {
        match self.entries.get(&id) {
            Some(e) => match &e.shell {
                Some(s) => Some(s),
                None => None,
            },
            None => None,
        }
    }
}

/// Registers a connection, if there is one. Returns its handle, or -1 where the connection failed
/// or no handle is left.
pub fn connect<H, T>(registry: &mut Registry<H, T>, connected: Option<H>) -> (r: i32)
    requires
        old(registry).wf(),
    ensures
        final(registry).wf(),
        final(registry)@ == old(registry)@.connected(connected),
        if connected is Some && old(registry)@.next < 0x8000_0000 {
            r == old(registry)@.next && !old(registry)@.entries.contains_key(r)
        } else {
            r == -1
        },
{
    match connected {
        Some(handle) => {
            if registry.next >= 0x8000_0000 {
                return -1;
            }
            let ghost before = registry@;
            let id: i32 = registry.next as i32;
            registry.next = registry.next + 1;
            let entry: Entry<H, T> = Entry { handle, shell: None };
            registry.entries.insert(id, entry);
            assert(registry@.entries =~= before.entries.insert(id, entry@));
            id
        },
        None => -1,
    }
}

/// Gives a session a fresh shell with the way to its task, if one was opened. Returns the serial
/// number of the shell, or nothing where there is no such session, the shell was not opened, or no
/// serial number is left.
pub fn open_shell<H, T>(
    registry: &mut Registry<H, T>,
    id: i32,
    opened: Option<T>,
) -> (r: Option<u64>)
    requires
        old(registry).wf(),
    ensures
        final(registry).wf(),
        final(registry)@ == old(registry)@.opened(id, opened),
        r == (if opened is Some && old(registry)@.can_open(id) {
            Some(old(registry)@.serial as u64)
        } else {
            None
        }),
{
    let tx = match opened {
        Some(tx) => tx,
        None => {
            return None;
        },
    };
    if registry.serial == u64::MAX {
        return None;
    }
    let ghost before = registry@;
    match registry.entries.remove(&id) {
        Some(entry) => {
            let serial: u64 = registry.serial;
            registry.serial = serial + 1;
            let shell = Shell { tx, serial, inbound: Vec::new(), open: true };
            assert(shell@.inbound =~= Seq::<u8>::empty());
            let entry = Entry { handle: entry.handle, shell: Some(shell) };
            registry.entries.insert(id, entry);
            assert(registry@.entries =~= before.with_shell(id, shell@).entries);
            Some(serial)
        },
        None => {
            assert(registry@.entries =~= before.entries);
            None
        },
    }
}

// ---------------------------------------------------------------------------
// Between a shell and its task

/// What the task of a shell is told to do.
#[derive(Debug, Clone, PartialEq, Eq)]
pub enum Cmd {
    /// Send these bytes to the remote shell.
    Data(Vec<u8>),
    /// Tell the remote shell its new size in columns and rows.
    Resize(u32, u32),
    /// Close the channel.
    Close,
}

/// What the task of a shell is told to do, over sequences.
pub enum CmdView {
    Data(Seq<u8>),
    Resize(u32, u32),
    Close,
}

impl View for Cmd {
    type V = CmdView;

    open spec fn view(&self) -> CmdView {
        match self {
            Cmd::Data(b) => CmdView::Data(b@),
            Cmd::Resize(c, r) => CmdView::Resize(*c, *r),
            Cmd::Close => CmdView::Close,
        }
    }
}

/// What the program asks of a shell.
pub enum Wish {
    /// To have these bytes.
    Bytes(Seq<u8>),
    /// To have this size in columns and rows.
    Size(u32, u32),
}

/// The command for a wish.
pub open spec fn command_for(wish: Wish) -> CmdView {
    match wish {
        Wish::Bytes(b) => CmdView::Data(b),
        Wish::Size(c, r) => CmdView::Resize(c, r),
    }
}

/// What the channel of a shell brings.
pub enum Message {
    /// Output of the shell.
    Data(Vec<u8>),
    /// Output of the shell on its second stream.
    ExtendedData(Vec<u8>),
    /// There is no more output.
    Eof,
    /// The channel was closed.
    Close,
    /// The channel is gone.
    Gone,
    /// Anything else.
    Other,
}

/// The output in a message.
pub open spec fn output(m: Message) -> Seq<u8> {
    match m {
        Message::Data(b) => b@,
        Message::ExtendedData(b) => b@,
        _ => Seq::empty(),
    }
}

/// Whether a message ends the shell.
pub open spec fn ends(m: Message) -> bool {
    m is Eof || m is Close || m is Gone
}

/// A shell after a message.
pub open spec fn delivered<T>(s: ShellView<T>, m: Message) -> ShellView<T> {
    ShellView { inbound: s.inbound + output(m), open: s.open && !ends(m), ..s }
}

/// Takes in what the channel of a shell brought. A message for a shell that its session no longer
/// has is dropped. Returns whether the task goes on.
pub fn deliver<H, T>(
    registry: &mut Registry<H, T>,
    id: i32,
    serial: u64,
    message: Message,
) -> (r: bool)
    requires
        old(registry).wf(),
    ensures
        final(registry).wf(),
        r == !ends(message),
        final(registry)@ == old(registry)@.delivered(id, serial, message),
{
    let ghost before = registry@;
    let (bytes, more): (Vec<u8>, bool) = match message {
        Message::Data(b) => (b, true),
        Message::ExtendedData(b) => (b, true),
        Message::Eof => (Vec::new(), false),
        Message::Close => (Vec::new(), false),
        Message::Gone => (Vec::new(), false),
        Message::Other => (Vec::new(), true),
    };
    assert(bytes@ =~= output(message));
    match registry.entries.remove(&id) {
        Some(entry) => {
            let entry = match entry.shell {
                Some(shell) => {
                    let mut shell = shell;
                    if shell.serial == serial {
                        append_bytes(&mut shell.inbound, bytes.as_slice());
                        if !more {
                            shell.open = false;
                        }
                    }
                    Entry { handle: entry.handle, shell: Some(shell) }
                },
                None => Entry { handle: entry.handle, shell: None },
            };
            registry.entries.insert(id, entry);
            proof {
                match before.shell(id) {
                    Some(s) if s.serial == serial => {
                        assert(registry@.entries =~= before.with_shell(
                            id,
                            delivered(s, message),
                        ).entries);
                    },
                    _ => {
                        assert(registry@.entries =~= before.entries);
                    },
                }
            }
        },
        None => {
            assert(registry@.entries =~= before.entries);
        },
    }
    more
}

/// What the task of a shell does next.
#[derive(Debug, Clone, PartialEq, Eq)]
pub enum TaskStep {
    /// Write these bytes to the channel and go on.
    Write(Vec<u8>),
    /// Tell the remote shell its new size and go on.
    Resize(u32, u32),
    /// Send the end of file, report it with `finished`, and stop.
    Finish,
}

/// What the task of a shell does next, over sequences.
pub enum StepView {
    Write(Seq<u8>),
    Resize(u32, u32),
    Finish,
}

impl View for TaskStep {
    type V = StepView;

    open spec fn view(&self) -> StepView {
        match self {
            TaskStep::Write(b) => StepView::Write(b@),
            TaskStep::Resize(c, r) => StepView::Resize(*c, *r),
            TaskStep::Finish => StepView::Finish,
        }
    }
}

/// What the task of a shell does about a command.
pub open spec fn obeyed(command: CmdView) -> StepView {
    match command {
        CmdView::Data(b) => StepView::Write(b),
        CmdView::Resize(c, r) => StepView::Resize(c, r),
        CmdView::Close => StepView::Finish,
    }
}

/// What the task of a shell does about a command; where there are no more commands, it finishes.
pub fn obey(command: Option<Cmd>) -> (r: TaskStep)
    ensures
        r@ == (match command {
            Some(c) => obeyed(c@),
            None => StepView::Finish,
        }),
{
    match command {
        Some(Cmd::Data(b)) => TaskStep::Write(b),
        Some(Cmd::Resize(c, n)) => TaskStep::Resize(c, n),
        Some(Cmd::Close) => TaskStep::Finish,
        None => TaskStep::Finish,
    }
}

/// Notes that the task of a shell has finished.
pub fn finished<H, T>(registry: &mut Registry<H, T>, id: i32, serial: u64)
    requires
        old(registry).wf(),
    ensures
        final(registry).wf(),
        final(registry)@ == old(registry)@.finished(id, serial),
{
    let ghost before = registry@;
    let _ = deliver(registry, id, serial, Message::Gone);
    proof {
        match before.shell(id) {
            Some(s) if s.serial == serial => {
                assert(delivered(s, Message::Gone).inbound =~= s.inbound);
            },
            _ => {},
        }
    }
}

// ---------------------------------------------------------------------------
// What the program does

/// Sends bytes to the remote shell: the command, and the way to the task that is to have it.
pub fn send<'a, H, T>(registry: &'a Registry<H, T>, id: i32, data: &[u8]) -> (r: Option<
    (&'a T, Cmd),
>)
    ensures
        match r {
            Some((tx, cmd)) => registry@.shell(id) is Some && *tx == registry@.shell(id)->0.tx
                && cmd@ == command_for(Wish::Bytes(data@)),
            None => registry@.shell(id) is None,
        },
{
    match registry.shell_of(id) {
        Some(shell) => {
            let mut bytes: Vec<u8> = Vec::new();
            append_bytes(&mut bytes, data);
            assert(bytes@ =~= data@);
            Some((&shell.tx, Cmd::Data(bytes)))
        },
        None => None,
    }
}

/// Tells the remote shell its new size.
pub fn resize<'a, H, T>(registry: &'a Registry<H, T>, id: i32, cols: u32, rows: u32) -> (r: Option<
    (&'a T, Cmd),
>)
    ensures
        match r {
            Some((tx, cmd)) => registry@.shell(id) is Some && *tx == registry@.shell(id)->0.tx
                && cmd@ == command_for(Wish::Size(cols, rows)),
            None => registry@.shell(id) is None,
        },
{
    match registry.shell_of(id) {
        Some(shell) => Some((&shell.tx, Cmd::Resize(cols, rows))),
        None => None,
    }
}

/// A shell after everything that arrived was taken.
pub open spec fn drained<T>(s: ShellView<T>) -> ShellView<T> {
    ShellView { inbound: Seq::empty(), ..s }
}

/// Takes everything that has arrived since the last call.
pub fn recv<H, T>(registry: &mut Registry<H, T>, id: i32) -> (r: Vec<u8>)
    requires
        old(registry).wf(),
    ensures
        final(registry).wf(),
        final(registry)@ == old(registry)@.received(id),
        r@ == (match old(registry)@.shell(id) {
            Some(s) => s.inbound,
            None => Seq::empty(),
        }),
{
    let ghost before = registry@;
    let mut out: Vec<u8> = Vec::new();
    assert(out@ =~= Seq::<u8>::empty());
    match registry.entries.remove(&id) {
        Some(entry) => {
            let entry = match entry.shell {
                Some(shell) => {
                    let mut shell = shell;
                    std::mem::swap(&mut out, &mut shell.inbound);
                    Entry { handle: entry.handle, shell: Some(shell) }
                },
                None => Entry { handle: entry.handle, shell: None },
            };
            registry.entries.insert(id, entry);
            proof {
                match before.shell(id) {
                    Some(s) => {
                        assert(registry@.entries =~= before.with_shell(id, drained(s)).entries);
                    },
                    _ => {
                        assert(registry@.entries =~= before.entries);
                    },
                }
            }
        },
        None => {
            assert(registry@.entries =~= before.entries);
        },
    }
    out
}

/// Whether the shell of a session is open.
pub fn is_open<H, T>(registry: &Registry<H, T>, id: i32) -> (r: bool)
    ensures
        r == registry@.is_open(id),
{
    match registry.shell_of(id) {
        Some(shell) => shell.open,
        None => false,
    }
}

/// What is left to do for a session that was closed.
pub struct Closing<H, T> {
    /// The connection, to be closed.
    pub handle: H,
    /// The way to the task of its shell, which is to be told to close.
    pub tx: Option<T>,
}

/// Ends a session.
pub fn close<H, T>(registry: &mut Registry<H, T>, id: i32) -> (r: Option<Closing<H, T>>)
    requires
        old(registry).wf(),
    ensures
        final(registry).wf(),
        match r {
            Some(c) => {
                &&& old(registry)@.entries.contains_key(id)
                &&& c.handle == old(registry)@.entries[id].handle
                &&& c.tx == (match old(registry)@.entries[id].shell {
                    Some(s) => Some(s.tx),
                    None => None,
                })
            },
            None => !old(registry)@.entries.contains_key(id),
        },
        final(registry)@ == old(registry)@.closed(id),
{
    let ghost before = registry@;
    let removed = registry.entries.remove(&id);
    assert(registry@.entries =~= before.entries.remove(id));
    match removed {
        Some(entry) => {
            let tx = match entry.shell {
                Some(shell) => Some(shell.tx),
                None => None,
            };
            Some(Closing { handle: entry.handle, tx })
        },
        None => None,
    }
}

// ---------------------------------------------------------------------------
// Laws

/// What happens to the shell of a session while it lasts.
pub enum Turn {
    /// A message arrives.
    Arrives(Message),
    /// `recv` is called.
    Received,
}

/// A shell after `turns`.
pub open spec fn shell_after<T>(s: ShellView<T>, turns: Seq<Turn>) -> ShellView<T>
    decreases turns.len(),
{
    if turns.len() == 0 {
        s
    } else {
        let before = shell_after(s, turns.drop_last());
        match turns.last() {
            Turn::Arrives(m) => delivered(before, m),
            Turn::Received => drained(before),
        }
    }
}

/// Everything that `recv` returned during `turns`, in a row.
pub open spec fn taken<T>(s: ShellView<T>, turns: Seq<Turn>) -> Seq<u8>
    decreases turns.len(),
{
    if turns.len() == 0 {
        Seq::empty()
    } else {
        let before = taken(s, turns.drop_last());
        match turns.last() {
            Turn::Arrives(_) => before,
            Turn::Received => before + shell_after(s, turns.drop_last()).inbound,
        }
    }
}

/// Everything that arrived during `turns`, in a row: the bytes of each message with output.
pub open spec fn arrived(turns: Seq<Turn>) -> Seq<u8>
    decreases turns.len(),
{
    if turns.len() == 0 {
        Seq::empty()
    } else {
        match turns.last() {
            Turn::Arrives(Message::Data(b)) => arrived(turns.drop_last()) + b@,
            Turn::Arrives(Message::ExtendedData(b)) => arrived(turns.drop_last()) + b@,
            _ => arrived(turns.drop_last()),
        }
    }
}

/// What `recv` returns, over all its calls, and what is still waiting is exactly what arrived: in
/// order, with nothing lost and nothing twice, however the arrivals and the calls are interleaved.
pub proof fn inbound_is_ordered_and_lossless<T>(s: ShellView<T>, turns: Seq<Turn>)
    ensures
        taken(s, turns) + shell_after(s, turns).inbound == s.inbound + arrived(turns),
    decreases turns.len(),
{
    if turns.len() == 0 {
        assert(taken(s, turns) + s.inbound =~= s.inbound + arrived(turns));
    } else {
        inbound_is_ordered_and_lossless(s, turns.drop_last());
        let before = turns.drop_last();
        match turns.last() {
            Turn::Arrives(m) => {
                assert(taken(s, turns) + shell_after(s, turns).inbound =~= (taken(s, before)
                    + shell_after(s, before).inbound) + output(m));
                assert((s.inbound + arrived(before)) + output(m) =~= s.inbound + arrived(turns));
            },
            Turn::Received => {
                assert(taken(s, turns) + shell_after(s, turns).inbound =~= taken(s, before)
                    + shell_after(s, before).inbound);
            },
        }
    }
}

/// A shell that has closed stays closed, and what arrived before can still be received.
pub proof fn closed_shells_stay_closed<T>(s: ShellView<T>, turns: Seq<Turn>)
    ensures
        !s.open ==> !shell_after(s, turns).open,
        shell_after(s, turns).serial == s.serial,
        shell_after(s, turns).tx == s.tx,
    decreases turns.len(),
{
    if turns.len() > 0 {
        closed_shells_stay_closed(s, turns.drop_last());
    }
}

/// What happens to the table.
pub enum Happening<H, T> {
    /// `connect`, with the connection, if there is one.
    Connect(Option<H>),
    /// `open_shell`, with the way to the task, if a shell was opened.
    OpenShell(i32, Option<T>),
    /// `deliver`, for the shell with this serial number.
    Deliver(i32, u64, Message),
    /// `finished`, for the shell with this serial number.
    Finished(i32, u64),
    /// `recv`.
    Recv(i32),
    /// `close`.
    Close(i32),
}

/// The table after one thing that happened to it.
pub open spec fn table_then<H, T>(r: RegistryView<H, T>, h: Happening<H, T>) -> RegistryView<H, T> {
    match h {
        Happening::Connect(connected) => r.connected(connected),
        Happening::OpenShell(id, opened) => r.opened(id, opened),
        Happening::Deliver(id, serial, m) => r.delivered(id, serial, m),
        Happening::Finished(id, serial) => r.finished(id, serial),
        Happening::Recv(id) => r.received(id),
        Happening::Close(id) => r.closed(id),
    }
}

/// The table after everything that happened to it since it was new.
pub open spec fn table_after<H, T>(history: Seq<Happening<H, T>>) -> RegistryView<H, T>
    decreases history.len(),
{
    if history.len() == 0 {
        RegistryView { entries: Map::empty(), next: 0, serial: 0 }
    } else {
        table_then(table_after(history.drop_last()), history.last())
    }
}

/// Whether the session got a fresh shell at the place `k` of a history.
pub open spec fn opens_at<H, T>(history: Seq<Happening<H, T>>, k: int, id: i32) -> bool {
    &&& 0 <= k < history.len()
    &&& history[k] matches Happening::OpenShell(i, Some(_)) && i == id
    &&& table_after(history.take(k)).can_open(id)
}

/// Whether something ends the shell of a session that has this serial number.
pub open spec fn ends_shell<H, T>(h: Happening<H, T>, id: i32, serial: u64) -> bool {
    match h {
        Happening::Close(i) => i == id,
        Happening::Deliver(i, n, m) => i == id && n == serial && ends(m),
        Happening::Finished(i, n) => i == id && n == serial,
        _ => false,
    }
}

/// Whether the session got a fresh shell at the place `k` of a history and has it still, open:
/// nothing since has ended that shell or put another in its place.
pub open spec fn open_since<H, T>(history: Seq<Happening<H, T>>, k: int, id: i32) -> bool {
    &&& opens_at(history, k, id)
    &&& forall|j: int|
        k < j < history.len() ==> !ends_shell(
            #[trigger] history[j],
            id,
            table_after(history.take(k)).serial as u64,
        ) && !opens_at(history, j, id)
}

/// Handles and serial numbers that are in use were given out before.
proof fn lemma_table<H, T>(history: Seq<Happening<H, T>>)
    ensures
        table_after(history).next <= 0x8000_0000,
        table_after(history).serial <= u64::MAX,
        forall|id: i32| #[trigger]
            table_after(history).entries.contains_key(id) ==> 0 <= id < table_after(history).next,
    decreases history.len(),
{
    if history.len() > 0 {
        lemma_table(history.drop_last());
    }
}

/// The shell of a session is open exactly where `open_shell` gave it one, and neither `close` nor an
/// end of that shell's channel nor another shell has come since. So no session is open before it has
/// a shell, after it was closed, or without a handle that was given out.
pub proof fn open_shells_were_opened<H, T>(history: Seq<Happening<H, T>>, id: i32)
    ensures
        table_after(history).is_open(id) <==> exists|k: int| open_since(history, k, id),
        forall|k: int| #[trigger]
            open_since(history, k, id) ==> table_after(history).shell(id)->0.serial == table_after(
                history.take(k),
            ).serial as u64,
    decreases history.len(),
{
    if history.len() > 0 {
        let n = history.len() - 1;
        let before = history.drop_last();
        let h = history.last();
        open_shells_were_opened(before, id);
        lemma_table(before);
        assert(history.take(n) =~= before);
        assert forall|k: int| 0 <= k < n implies #[trigger] history.take(k) == before.take(k) by {
            assert(history.take(k) =~= before.take(k));
        }
        assert forall|k: int| 0 <= k < n implies opens_at(history, k, id) == #[trigger] opens_at(
            before,
            k,
            id,
        ) by {
            assert(history.take(k) == before.take(k));
        }
        let r = table_after(before);
        let now = table_after(history);
        assert(now == table_then(r, h));
        if opens_at(history, n, id) {
            assert(open_since(history, n, id));
            assert forall|k: int| #[trigger] open_since(history, k, id) implies k == n by {
                if k < n {
                    assert(!opens_at(history, n, id));
                }
            }
        } else {
            assert forall|k: int| 0 <= k < n implies #[trigger] open_since(history, k, id) == (
            open_since(before, k, id) && !ends_shell(
                h,
                id,
                table_after(before.take(k)).serial as u64,
            )) by {
                assert(history.take(k) == before.take(k));
                let serial = table_after(before.take(k)).serial as u64;
                if open_since(history, k, id) {
                    assert forall|j: int| k < j < n implies !ends_shell(
                        #[trigger] before[j],
                        id,
                        serial,
                    ) && !opens_at(before, j, id) by {
                        assert(before[j] == history[j]);
                        assert(opens_at(history, j, id) == opens_at(before, j, id));
                    }
                    assert(history[n] == h);
                }
                if open_since(before, k, id) && !ends_shell(h, id, serial) {
                    assert forall|j: int| k < j < history.len() implies !ends_shell(
                        #[trigger] history[j],
                        id,
                        serial,
                    ) && !opens_at(history, j, id) by {
                        if j < n {
                            assert(before[j] == history[j]);
                            assert(opens_at(history, j, id) == opens_at(before, j, id));
                        }
                    }
                }
            }
            lemma_step(r, h, id);
            if now.is_open(id) {
                let k = choose|k: int| open_since(before, k, id);
                assert(open_since(history, k, id));
            }
            if exists|k: int| open_since(history, k, id) {
                let k = choose|k: int| open_since(history, k, id);
                assert(0 <= k < n);
                assert(open_since(before, k, id));
            }
        }
    }
}

/// What one thing does to the shell of a session that it does not give a fresh one.
proof fn lemma_step<H, T>(r: RegistryView<H, T>, h: Happening<H, T>, id: i32)
    requires
        !(h matches Happening::OpenShell(i, Some(_)) && i == id && r.can_open(id)),
        r.next <= 0x8000_0000,
        forall|i: i32| #[trigger] r.entries.contains_key(i) ==> 0 <= i < r.next,
    ensures
        ({
            let now = table_then(r, h);
            match r.shell(id) {
                Some(s) => {
                    &&& now.is_open(id) <==> s.open && !ends_shell(h, id, s.serial)
                    &&& now.shell(id) matches Some(t) ==> t.serial == s.serial
                },
                None => now.shell(id) is None,
            }
        }),
{
}

/// What happens between a program and the task of a shell. The queue between them gives out first
/// what was put in first.
pub enum Post {
    /// The program calls `send` or `resize`, and the command is put into the queue.
    Asked(Wish),
    /// The task takes the next command out of the queue, if there is one, and obeys it.
    Taken,
}

/// The commands that wait in the queue after `posts`.
pub open spec fn waiting(posts: Seq<Post>) -> Seq<CmdView>
    decreases posts.len(),
{
    if posts.len() == 0 {
        Seq::empty()
    } else {
        let before = waiting(posts.drop_last());
        match posts.last() {
            Post::Asked(wish) => before.push(command_for(wish)),
            Post::Taken => if before.len() > 0 {
                before.skip(1)
            } else {
                before
            },
        }
    }
}

/// What the task has done during `posts`.
pub open spec fn done(posts: Seq<Post>) -> Seq<StepView>
    decreases posts.len(),
{
    if posts.len() == 0 {
        Seq::empty()
    } else {
        let before = done(posts.drop_last());
        let queue = waiting(posts.drop_last());
        match posts.last() {
            Post::Asked(_) => before,
            Post::Taken => if queue.len() > 0 {
                before.push(obeyed(queue[0]))
            } else {
                before
            },
        }
    }
}

/// What the program asked for during `posts`.
pub open spec fn asked(posts: Seq<Post>) -> Seq<StepView>
    decreases posts.len(),
{
    if posts.len() == 0 {
        Seq::empty()
    } else {
        let before = asked(posts.drop_last());
        match posts.last() {
            Post::Asked(Wish::Bytes(b)) => before.push(StepView::Write(b)),
            Post::Asked(Wish::Size(c, r)) => before.push(StepView::Resize(c, r)),
            Post::Taken => before,
        }
    }
}

/// What the task has handed on, and what it will hand on of what still waits, is exactly what the
/// program asked for: the bytes and sizes unchanged, in the order of the calls, each once, however
/// the calls and the task are interleaved.
pub proof fn outbound_is_ordered_and_lossless(posts: Seq<Post>)
    ensures
        done(posts) + waiting(posts).map_values(|c: CmdView| obeyed(c)) == asked(posts),
    decreases posts.len(),
{
    let f = |c: CmdView| obeyed(c);
    if posts.len() == 0 {
        assert(done(posts) + waiting(posts).map_values(f) =~= asked(posts));
    } else {
        let before = posts.drop_last();
        outbound_is_ordered_and_lossless(before);
        let queue = waiting(before);
        match posts.last() {
            Post::Asked(wish) => {
                assert(queue.push(command_for(wish)).map_values(f) =~= queue.map_values(f).push(
                    obeyed(command_for(wish)),
                ));
                assert(done(posts) + waiting(posts).map_values(f) =~= (done(before)
                    + queue.map_values(f)).push(obeyed(command_for(wish))));
            },
            Post::Taken => {
                if queue.len() > 0 {
                    assert(queue.map_values(f) =~= seq![obeyed(queue[0])] + queue.skip(1).map_values(
                        f,
                    ));
                    assert(done(posts) + waiting(posts).map_values(f) =~= done(before)
                        + queue.map_values(f));
                }
            },
        }
    }
}

/// What a message does to the shell that it is for: output of either stream waits behind what waited
/// before, all of it, and an end of the channel closes the shell and takes nothing away. Nothing
/// else changes.
pub proof fn messages_are_kept_whole<H, T>(
    r: RegistryView<H, T>,
    id: i32,
    s: ShellView<T>,
    m: Message,
)
    requires
        r.entries.contains_key(id),
        r.entries[id].shell == Some(s),
    ensures
        ({
            let now = r.delivered(id, s.serial, m);
            &&& now.next == r.next
            &&& now.serial == r.serial
            &&& now.entries.contains_key(id)
            &&& now.entries[id].handle == r.entries[id].handle
            &&& now.entries[id].shell matches Some(t) && {
                &&& t.tx == s.tx
                &&& t.serial == s.serial
                &&& m matches Message::Data(b) ==> t.inbound == s.inbound + b@ && t.open == s.open
                &&& m matches Message::ExtendedData(b) ==> t.inbound == s.inbound + b@ && t.open
                    == s.open
                &&& m is Eof || m is Close || m is Gone ==> t.inbound == s.inbound && !t.open
                &&& m is Other ==> t.inbound == s.inbound && t.open == s.open
            }
        }),
{
    assert(s.inbound + Seq::<u8>::empty() =~= s.inbound);
}

/// A message for a shell that its session no longer has, or for no session, changes nothing, and
/// neither does the end of such a shell's task.
pub proof fn late_messages_change_nothing<H, T>(
    r: RegistryView<H, T>,
    id: i32,
    serial: u64,
    m: Message,
)
    requires
        r.entries.contains_key(id) ==> (r.entries[id].shell matches Some(s) ==> s.serial != serial),
    ensures
        r.delivered(id, serial, m) == r,
        r.finished(id, serial) == r,
{
}

/// `recv` takes everything that waits and leaves the shell as it is but for that; a task that has
/// finished leaves what waits.
pub proof fn receiving_takes_everything<H, T>(r: RegistryView<H, T>, id: i32, s: ShellView<T>)
    requires
        r.entries.contains_key(id),
        r.entries[id].shell == Some(s),
    ensures
        r.shell(id) == Some(s),
        r.is_open(id) == s.open,
        r.received(id).entries.contains_key(id),
        r.received(id).entries[id].handle == r.entries[id].handle,
        r.received(id).entries[id].shell == Some(
            ShellView { tx: s.tx, serial: s.serial, inbound: Seq::empty(), open: s.open },
        ),
        r.finished(id, s.serial).entries.contains_key(id),
        r.finished(id, s.serial).entries[id].handle == r.entries[id].handle,
        r.finished(id, s.serial).entries[id].shell == Some(
            ShellView { tx: s.tx, serial: s.serial, inbound: s.inbound, open: false },
        ),
{
}

/// Sessions keep to themselves: what happens to one leaves every other as it is, with its connection
/// and all of its shell. Only a connection takes a handle, and only a shell a serial number.
pub proof fn sessions_keep_to_themselves<H, T>(r: RegistryView<H, T>, h: Happening<H, T>, id: i32)
    requires
        match h {
            Happening::Connect(_) => id != r.next || r.next >= 0x8000_0000,
            Happening::OpenShell(i, _) => i != id,
            Happening::Deliver(i, _, _) => i != id,
            Happening::Finished(i, _) => i != id,
            Happening::Recv(i) => i != id,
            Happening::Close(i) => i != id,
        },
    ensures
        table_then(r, h).entries.contains_key(id) == r.entries.contains_key(id),
        r.entries.contains_key(id) ==> table_then(r, h).entries[id] == r.entries[id],
        !(h is Connect) ==> table_then(r, h).next == r.next,
        !(h is OpenShell) ==> table_then(r, h).serial == r.serial,
{
}

/// A connection gets the next handle and no shell yet; a fresh shell is open, has nothing waiting
/// and a serial number of its own; and a session that is closed is gone.
pub proof fn sessions_begin_and_end<H, T>(r: RegistryView<H, T>, id: i32, handle: H, tx: T)
    ensures
        r.next < 0x8000_0000 ==> ({
            let now = r.connected(Some(handle));
            &&& now.next == r.next + 1
            &&& now.serial == r.serial
            &&& now.entries.contains_key(r.next as i32)
            &&& now.entries[r.next as i32] == (EntryView::<H, T> { handle, shell: None })
        }),
        r.next >= 0x8000_0000 ==> r.connected(Some(handle)) == r,
        r.connected(None) == r,
        r.entries.contains_key(id) && r.serial < u64::MAX ==> ({
            let now = r.opened(id, Some(tx));
            &&& now.next == r.next
            &&& now.serial == r.serial + 1
            &&& now.entries.contains_key(id)
            &&& now.entries[id].handle == r.entries[id].handle
            &&& now.entries[id].shell == Some(
                ShellView { tx, serial: r.serial as u64, inbound: Seq::empty(), open: true },
            )
        }),
        !r.entries.contains_key(id) || r.serial >= u64::MAX ==> r.opened(id, Some(tx)) == r,
        r.opened(id, None) == r,
        !r.closed(id).entries.contains_key(id),
        r.closed(id).next == r.next,
        r.closed(id).serial == r.serial,
{
}

/// What the program asks for is what the task does: the bytes as they are, all of them, and the
/// size; and a command to close, or none any more, ends the task. A task goes on until its channel
/// ends.
pub proof fn wishes_are_carried_out(b: Seq<u8>, c: u32, r: u32, m: Message)
    ensures
        obeyed(command_for(Wish::Bytes(b))) == StepView::Write(b),
        obeyed(command_for(Wish::Size(c, r))) == StepView::Resize(c, r),
        command_for(Wish::Bytes(b)) == CmdView::Data(b),
        command_for(Wish::Size(c, r)) == CmdView::Resize(c, r),
        obeyed(CmdView::Close) == StepView::Finish,
        ends(m) <==> m is Eof || m is Close || m is Gone,
{
}

/// A session has a shell exactly where it was given one, and can be given one where there is such a
/// session and a serial number is left.
pub proof fn shells_belong_to_sessions<H, T>(r: RegistryView<H, T>, id: i32)
    ensures
        r.entries.contains_key(id) ==> r.shell(id) == r.entries[id].shell,
        !r.entries.contains_key(id) ==> r.shell(id) is None,
        r.is_open(id) <==> (r.shell(id) matches Some(s) && s.open),
        r.can_open(id) <==> r.entries.contains_key(id) && r.serial < u64::MAX,
{
}

/// A command and a step are seen as what they hold, every byte of them.
pub proof fn commands_are_seen_as_they_are(b: Vec<u8>, c: u32, r: u32)
    ensures
        Cmd::Data(b)@ == CmdView::Data(b@),
        Cmd::Resize(c, r)@ == CmdView::Resize(c, r),
        Cmd::Close@ == CmdView::Close,
        TaskStep::Write(b)@ == StepView::Write(b@),
        TaskStep::Resize(c, r)@ == StepView::Resize(c, r),
        TaskStep::Finish@ == StepView::Finish,
{
}

} // verus!
