//! The decisions of a single-room server: who may join under which name, and
//! what each pass over the connected clients sends to whom.
use vstd::prelude::*;
use vstd::string::*;
use vstd::utf8::decode_utf8;

use crate::frame::{PollEvent, Polled};
use crate::wire::{Code, Message};

verus! {

/// Two texts hold the same characters.
fn same_text(a: &str, b: &str) -> (r: bool)
    ensures
        r == (a@ == b@),
{
    let x = a.as_bytes();
    let y = b.as_bytes();
    proof {
        vstd::utf8::encode_utf8_decode_utf8(a@);
        vstd::utf8::encode_utf8_decode_utf8(b@);
    }
    if x.len() != y.len() {
        return false;
    }
    let mut i: usize = 0;
    while i < x.len()
        invariant
            x@ == a.spec_bytes(),
            y@ == b.spec_bytes(),
            decode_utf8(a.spec_bytes()) == a@,
            decode_utf8(b.spec_bytes()) == b@,
            x@.len() == y@.len(),
            i <= x@.len(),
            forall|k: int| 0 <= k < i ==> x@[k] == y@[k],
        decreases x@.len() - i,
    {
        if x[i] != y[i] {
            return false;
        }
        i = i + 1;
    }
    assert(x@ =~= y@);
    true
}

/// Some client of `clients` goes by the name `name`.
pub open spec fn is_registered<C>(clients: Seq<(C, String)>, name: Seq<char>) -> bool {
    exists|i: int| 0 <= i < clients.len() && (#[trigger] clients[i]).1@ == name
}

/// Whether some client of `vec` goes by the name `val`.
pub fn find_string<C>(vec: &[(C, String)], val: &str) -> (r: bool)
    ensures
        r == is_registered(vec@, val@),
{
    let mut i: usize = 0;
    while i < vec.len()
        invariant
            i <= vec@.len(),
            forall|k: int| 0 <= k < i ==> (#[trigger] vec@[k]).1@ != val@,
        decreases vec@.len() - i,
    {
        if same_text(vec[i].1.as_str(), val) {
            return true;
        }
        i = i + 1;
    }
    false
}

/// The text sent to the others when `name` joins.
pub open spec fn joined_notice(name: Seq<char>) -> Seq<char> {
    "User "@ + name + " connected!"@
}

/// The text sent to the others when `name` leaves.
pub open spec fn left_notice(name: Seq<char>) -> Seq<char> {
    "User "@ + name + " disconnected!"@
}

/// Builds the text sent to the others when `name` joins.
fn joined_notice_text(name: &str) -> (r: String)
    ensures
        r@ == joined_notice(name@),
{
    let mut s = String::from_str("User ");
    s.append(name);
    s.append(" connected!");
    s
}

/// Builds the text sent to the others when `name` leaves.
fn left_notice_text(name: &str) -> (r: String)
    ensures
        r@ == left_notice(name@),
{
    let mut s = String::from_str("User ");
    s.append(name);
    s.append(" disconnected!");
    s
}

/// A message to send to the client at index `to` of the registry.
#[derive(PartialEq, Eq, Debug)]
pub struct Delivery {
    pub to: usize,
    pub message: Code,
}

impl View for Delivery {
    type V = (int, Message);

    open spec fn view(&self) -> (int, Message) {
        (self.to as int, self.message@)
    }
}

/// The recipients and messages of a sequence of deliveries.
pub open spec fn deliveries_of(v: Seq<Delivery>) -> Seq<(int, Message)> {
    v.map_values(|d: Delivery| d@)
}

/// `m` for each of the first `n` clients, in order.
pub open spec fn to_everyone(n: int, m: Message) -> Seq<(int, Message)> {
    Seq::new(n as nat, |j: int| (j, m))
}

/// A copy of `c`.
fn copy_code(c: &Code) -> (r: Code)
    ensures
        r@ == c@,
{
    match c {
        Code::Name(n) => Code::Name(n.clone()),
        Code::AlreadyHere => Code::AlreadyHere,
        Code::MessageTo(t) => Code::MessageTo(t.clone()),
        Code::MessageFrom(n, t) => Code::MessageFrom(n.clone(), t.clone()),
        Code::Welcome(r, a) => Code::Welcome(r.clone(), a.clone()),
    }
}

/// Sends `message` to each of the first `n` clients.
fn send_to_everyone(n: usize, message: &Code) -> (r: Vec<Delivery>)
    ensures
        deliveries_of(r@) == to_everyone(n as int, message@),
{
    let mut out: Vec<Delivery> = Vec::new();
    let mut j: usize = 0;
    assert(deliveries_of(out@) =~= to_everyone(0, message@));
    while j < n
        invariant
            j <= n,
            deliveries_of(out@) == to_everyone(j as int, message@),
        decreases n - j,
    {
        let ghost prev = out@;
        out.push(Delivery { to: j, message: copy_code(message) });
        assert(deliveries_of(out@) =~= deliveries_of(prev).push((j as int, message@)));
        j = j + 1;
        assert(to_everyone(j as int, message@) =~= to_everyone(j - 1, message@).push(
            (j - 1, message@),
        ));
    }
    assert(deliveries_of(out@) =~= to_everyone(n as int, message@));
    out
}

/// What the server does with a message that a joining client sent.
#[derive(PartialEq, Eq, Debug)]
pub enum Handshake {
    /// Reply `reply`, send `notices`, then register the client under `name`.
    Accept { name: String, reply: Code, notices: Vec<Delivery> },
    /// Reply `reply` and wait for another name.
    Refuse { reply: Code },
    /// The message is no name: wait for the next one.
    Ignore,
}

/// Decides on the message `msg` of a client that asks to join the room `room`
/// of `admin`, where `clients` are registered: a name that neither the admin
/// nor a client has is welcomed and announced to every client; a taken name
/// gets `AlreadyHere`.
pub fn handshake<C>(clients: &[(C, String)], room: &str, admin: &str, msg: &Code) -> (r: Handshake)
    ensures
        match msg@ {
            Message::Name(n) => if n == admin@ || is_registered(clients@, n) {
                r matches Handshake::Refuse { reply } && reply@ == Message::AlreadyHere
            } else {
                r matches Handshake::Accept { name, reply, notices } && name@ == n && reply@
                    == Message::Welcome(room@, admin@) && deliveries_of(notices@) == to_everyone(
                    clients@.len() as int,
                    Message::MessageTo(joined_notice(n)),
                )
            },
            _ => r is Ignore,
        },
{
    match msg {
        Code::Name(n) => {
            if same_text(n.as_str(), admin) || find_string(clients, n.as_str()) {
                Handshake::Refuse { reply: Code::AlreadyHere }
            } else {
                let notice = Code::MessageTo(joined_notice_text(n.as_str()));
                let notices = send_to_everyone(clients.len(), &notice);
                Handshake::Accept {
                    name: n.clone(),
                    reply: Code::Welcome(room.to_owned(), admin.to_owned()),
                    notices,
                }
            }
        },
        _ => Handshake::Ignore,
    }
}

/// Sends the admin's text `text` to every client.
pub fn announce<C>(clients: &[(C, String)], text: &str) -> (r: Vec<Delivery>)
    ensures
        deliveries_of(r@) == to_everyone(clients@.len() as int, Message::MessageTo(text@)),
{
    send_to_everyone(clients.len(), &Code::MessageTo(text.to_owned()))
}

/// What polling a client gave, as the broadcast loop sees it.
#[derive(PartialEq, Eq, Debug)]
pub enum Activity {
    /// Nothing to hand on.
    Idle,
    /// The client sent this text.
    Said(String),
    /// The client is gone.
    Left,
}

/// How the broadcast loop reads one poll: a text is handed on, a disconnect
/// removes the client, anything else is passed over.
pub fn activity_of(p: Polled) -> (r: Activity)
    ensures
        match p {
            Polled::Decided(PollEvent::Message(Code::MessageTo(t))) => r == Activity::Said(t),
            Polled::Disconnected => r is Left,
            _ => r is Idle,
        },
{
    match p {
        Polled::Decided(PollEvent::Message(Code::MessageTo(t))) => Activity::Said(t),
        Polled::Disconnected => Activity::Left,
        _ => Activity::Idle,
    }
}

/// An entry of the room's log.
#[derive(PartialEq, Eq, Debug)]
pub enum LogEntry {
    /// A client joined under this name.
    Joined(String),
    /// A client sent a text: its name and the text.
    Said(String, String),
    /// A client left.
    Left(String),
}

/// What a log entry records.
pub enum LogLine {
    Joined(Seq<char>),
    Said(Seq<char>, Seq<char>),
    Left(Seq<char>),
}

impl View for LogEntry {
    type V = LogLine;

    open spec fn view(&self) -> LogLine {
        match self {
            LogEntry::Joined(n) => LogLine::Joined(n@),
            LogEntry::Said(n, t) => LogLine::Said(n@, t@),
            LogEntry::Left(n) => LogLine::Left(n@),
        }
    }
}

/// What a sequence of log entries records.
pub open spec fn log_of(v: Seq<LogEntry>) -> Seq<LogLine> {
    v.map_values(|e: LogEntry| e@)
}

/// The message that client `i` of a pass sends `m` to: each client among the
/// first `k` but `i` that has not left in this pass, in order.
pub open spec fn fan_out(act: Seq<Activity>, i: int, m: Message, k: int) -> Seq<(int, Message)>
    decreases k,
{
    if k <= 0 {
        Seq::empty()
    } else {
        fan_out(act, i, m, k - 1) + if k - 1 != i && !(act[k - 1] is Left) {
            seq![(k - 1, m)]
        } else {
            Seq::empty()
        }
    }
}

/// What client `name` makes the others receive with the activity `a`.
pub open spec fn broadcast_of(name: Seq<char>, a: Activity) -> Option<Message> {
    match a {
        Activity::Said(t) => Some(Message::MessageFrom(name, t@)),
        Activity::Left => Some(Message::MessageTo(left_notice(name))),
        Activity::Idle => None,
    }
}

/// What the log records of client `name` with the activity `a`.
pub open spec fn log_line_of(name: Seq<char>, a: Activity) -> Seq<LogLine> {
    match a {
        Activity::Said(t) => seq![LogLine::Said(name, t@)],
        Activity::Left => seq![LogLine::Left(name)],
        Activity::Idle => Seq::empty(),
    }
}

/// The deliveries of a pass over the first `k` clients, in the order of the
/// scan.
pub open spec fn pass_deliveries<C>(clients: Seq<(C, String)>, act: Seq<Activity>, k: int) -> Seq<
    (int, Message),
>
    decreases k,
{
    if k <= 0 {
        Seq::empty()
    } else {
        pass_deliveries(clients, act, k - 1) + match broadcast_of(clients[k - 1].1@, act[k - 1]) {
            Some(m) => fan_out(act, k - 1, m, act.len() as int),
            None => Seq::empty(),
        }
    }
}

/// The log of a pass over the first `k` clients, in the order of the scan.
pub open spec fn pass_log<C>(clients: Seq<(C, String)>, act: Seq<Activity>, k: int) -> Seq<LogLine>
    decreases k,
{
    if k <= 0 {
        Seq::empty()
    } else {
        pass_log(clients, act, k - 1) + log_line_of(clients[k - 1].1@, act[k - 1])
    }
}

/// What one pass of the broadcast loop does once every client was polled.
#[derive(PartialEq, Eq, Debug)]
pub struct PassPlan {
    /// Messages to send, in order.
    pub deliveries: Vec<Delivery>,
    /// Entries to append to the log, in order.
    pub log: Vec<LogEntry>,
    /// For each client, whether it stays registered.
    pub keep: Vec<bool>,
}

/// Appends to `out` the deliveries of `message` from client `from` to every
/// other client that has not left.
fn push_fan_out(out: &mut Vec<Delivery>, act: &[Activity], from: usize, message: &Code)
    ensures
        deliveries_of(final(out)@) == deliveries_of(old(out)@) + fan_out(
            act@,
            from as int,
            message@,
            act@.len() as int,
        ),
{
    let mut j: usize = 0;
    assert(deliveries_of(out@) =~= deliveries_of(old(out)@) + fan_out(act@, from as int, message@, 0));
    while j < act.len()
        invariant
            j <= act@.len(),
            deliveries_of(out@) == deliveries_of(old(out)@) + fan_out(
                act@,
                from as int,
                message@,
                j as int,
            ),
        decreases act@.len() - j,
    {
        let ghost prev = out@;
        let left = match act[j] {
            Activity::Left => true,
            _ => false,
        };
        if j != from && !left {
            out.push(Delivery { to: j, message: copy_code(message) });
            assert(deliveries_of(out@) =~= deliveries_of(prev).push((j as int, message@)));
        }
        j = j + 1;
        assert(deliveries_of(out@) =~= deliveries_of(old(out)@) + fan_out(
            act@,
            from as int,
            message@,
            j as int,
        ));
    }
}

/// Plans a pass of the broadcast loop over `clients`, where `activity[i]` is
/// what polling client `i` gave. A text goes, as `MessageFrom` with its
/// author's name, to every other client that stays, and into the log; a
/// client that left is dropped, every client that stays is told, and the log
/// records it. Removal waits for the end of the pass, so that no client is
/// skipped or visited twice.
pub fn plan_pass<C>(clients: &[(C, String)], activity: &[Activity]) -> (r: PassPlan)
    requires
        activity@.len() == clients@.len(),
    ensures
        deliveries_of(r.deliveries@) == pass_deliveries(clients@, activity@, clients@.len() as int),
        log_of(r.log@) == pass_log(clients@, activity@, clients@.len() as int),
        r.keep@.len() == clients@.len(),
        forall|j: int| 0 <= j < clients@.len() ==> r.keep@[j] == !(activity@[j] is Left),
{
    let mut deliveries: Vec<Delivery> = Vec::new();
    let mut log: Vec<LogEntry> = Vec::new();
    let mut keep: Vec<bool> = Vec::new();
    let mut i: usize = 0;
    assert(deliveries_of(deliveries@) =~= pass_deliveries(clients@, activity@, 0));
    assert(log_of(log@) =~= pass_log(clients@, activity@, 0));
    while i < clients.len()
        invariant
            activity@.len() == clients@.len(),
            i <= clients@.len(),
            deliveries_of(deliveries@) == pass_deliveries(clients@, activity@, i as int),
            log_of(log@) == pass_log(clients@, activity@, i as int),
            keep@.len() == i,
            forall|j: int| 0 <= j < i ==> keep@[j] == !(activity@[j] is Left),
        decreases clients@.len() - i,
    {
        let name = &clients[i].1;
        let ghost prev_log = log@;
        match &activity[i] {
            Activity::Said(t) => {
                push_fan_out(&mut deliveries, activity, i, &Code::MessageFrom(name.clone(), t.clone()));
                log.push(LogEntry::Said(name.clone(), t.clone()));
                keep.push(true);
            },
            Activity::Left => {
                push_fan_out(&mut deliveries, activity, i, &Code::MessageTo(left_notice_text(name.as_str())));
                log.push(LogEntry::Left(name.clone()));
                keep.push(false);
            },
            Activity::Idle => {
                keep.push(true);
            },
        }
        assert(log_of(log@) =~= log_of(prev_log) + log_line_of(clients@[i as int].1@, activity@[i as int]));
        i = i + 1;
    }
    PassPlan { deliveries, log, keep }
}

/// Each delivery of a fan-out goes to a client among the first `k` other
/// than `i` that stays, and carries `m`.
proof fn lemma_fan_out_targets(act: Seq<Activity>, i: int, m: Message, k: int)
    requires
        k <= act.len(),
    ensures
        forall|d: int| 0 <= d < fan_out(act, i, m, k).len() ==> {
            let (j, msg) = #[trigger] fan_out(act, i, m, k)[d];
            &&& 0 <= j < k
            &&& j != i
            &&& !(act[j] is Left)
            &&& msg == m
        },
    decreases k,
{
    if k > 0 {
        lemma_fan_out_targets(act, i, m, k - 1);
    }
}

/// Every delivery of a pass goes to a registered client that stays
/// registered after the pass: a client that leaves is sent nothing.
pub proof fn lemma_pass_reaches_only_staying<C>(clients: Seq<(C, String)>, act: Seq<Activity>, k: int)
    requires
        act.len() == clients.len(),
        k <= clients.len(),
    ensures
        forall|d: int| 0 <= d < pass_deliveries(clients, act, k).len() ==> {
            let (j, _) = #[trigger] pass_deliveries(clients, act, k)[d];
            &&& 0 <= j < clients.len()
            &&& !(act[j] is Left)
        },
    decreases k,
{
    if k > 0 {
        lemma_pass_reaches_only_staying(clients, act, k - 1);
        match broadcast_of(clients[k - 1].1@, act[k - 1]) {
            Some(m) => lemma_fan_out_targets(act, k - 1, m, act.len() as int),
            None => {},
        }
    }
}

/// With nobody leaving, a fan-out from `i` over the first `k` clients
/// reaches each of them but `i` once, in order.
proof fn lemma_fan_out_everyone_else(act: Seq<Activity>, i: int, m: Message, k: int)
    requires
        0 <= i < act.len(),
        k <= act.len(),
        forall|j: int| 0 <= j < act.len() ==> !(#[trigger] act[j] is Left),
    ensures
        fan_out(act, i, m, k).len() == if k <= i { if k < 0 { 0 } else { k } } else { k - 1 },
        forall|d: int| 0 <= d < fan_out(act, i, m, k).len() ==> #[trigger] fan_out(act, i, m, k)[d] == (
            if d < i { d } else { d + 1 },
            m,
        ),
    decreases k,
{
    if k > 0 {
        lemma_fan_out_everyone_else(act, i, m, k - 1);
    }
}

/// When one client says a text and every other is idle, the pass sends the
/// text, as `MessageFrom` with the author's name, once to each other client in
/// order, and nothing to its author.
pub proof fn lemma_pass_single_text<C>(clients: Seq<(C, String)>, act: Seq<Activity>, i: int)
    requires
        act.len() == clients.len(),
        0 <= i < clients.len(),
        act[i] is Said,
        forall|j: int| 0 <= j < act.len() && j != i ==> #[trigger] act[j] is Idle,
    ensures
        pass_deliveries(clients, act, clients.len() as int).len() == clients.len() - 1,
        forall|d: int| 0 <= d < clients.len() - 1 ==> #[trigger] pass_deliveries(
            clients,
            act,
            clients.len() as int,
        )[d] == (if d < i { d } else { d + 1 }, Message::MessageFrom(clients[i].1@, act[i]->Said_0@)),
{
    let m = Message::MessageFrom(clients[i].1@, act[i]->Said_0@);
    let n = clients.len() as int;
    assert forall|j: int| 0 <= j < act.len() implies !(#[trigger] act[j] is Left) by {
        if j != i {
            assert(act[j] is Idle);
        }
    }
    lemma_fan_out_everyone_else(act, i, m, n);
    assert forall|k: int| 0 <= k <= n implies #[trigger] pass_deliveries(clients, act, k) == if k <= i {
        Seq::<(int, Message)>::empty()
    } else {
        fan_out(act, i, m, n)
    } by {
        lemma_pass_prefix_single(clients, act, i, m, k);
    }
}

/// The deliveries of the first `k` clients of a pass in which only client
/// `i` says anything.
proof fn lemma_pass_prefix_single<C>(
    clients: Seq<(C, String)>,
    act: Seq<Activity>,
    i: int,
    m: Message,
    k: int,
)
    requires
        act.len() == clients.len(),
        0 <= i < clients.len(),
        0 <= k <= clients.len(),
        act[i] is Said,
        m == Message::MessageFrom(clients[i].1@, act[i]->Said_0@),
        forall|j: int| 0 <= j < act.len() && j != i ==> #[trigger] act[j] is Idle,
    ensures
        pass_deliveries(clients, act, k) == if k <= i {
            Seq::<(int, Message)>::empty()
        } else {
            fan_out(act, i, m, act.len() as int)
        },
    decreases k,
{
    if k > 0 {
        lemma_pass_prefix_single(clients, act, i, m, k - 1);
        if k - 1 != i {
            assert(act[k - 1] is Idle);
            assert(pass_deliveries(clients, act, k) =~= pass_deliveries(clients, act, k - 1));
        } else {
            assert(Seq::<(int, Message)>::empty() + fan_out(act, i, m, act.len() as int) =~= fan_out(
                act,
                i,
                m,
                act.len() as int,
            ));
        }
    }
}

/// The items of `s` whose flag in `keep` is set, in order.
pub open spec fn kept<T>(s: Seq<T>, keep: Seq<bool>) -> Seq<T>
    decreases s.len(),
{
    if s.len() == 0 {
        Seq::empty()
    } else {
        (if keep[0] { seq![s[0]] } else { Seq::empty() }) + kept(s.drop_first(), keep.drop_first())
    }
}

/// Where no client whose flag is set goes by `name`, no client that is kept
/// does.
proof fn lemma_kept_excludes<C>(s: Seq<(C, String)>, keep: Seq<bool>, name: Seq<char>)
    requires
        keep.len() == s.len(),
        forall|i: int| 0 <= i < s.len() && keep[i] ==> (#[trigger] s[i]).1@ != name,
    ensures
        forall|k: int| 0 <= k < kept(s, keep).len() ==> (#[trigger] kept(s, keep)[k]).1@ != name,
    decreases s.len(),
{
    if s.len() > 0 {
        assert forall|i: int| 0 <= i < s.len() - 1 && keep.drop_first()[i] implies (
        #[trigger] s.drop_first()[i]).1@ != name by {
            assert(s.drop_first()[i] == s[i + 1] && keep[i + 1]);
        }
        lemma_kept_excludes(s.drop_first(), keep.drop_first(), name);
        let head: Seq<(C, String)> = if keep[0] { seq![s[0]] } else { Seq::empty() };
        let tail = kept(s.drop_first(), keep.drop_first());
        assert(kept(s, keep) == head + tail);
        assert forall|k: int| 0 <= k < kept(s, keep).len() implies (#[trigger] kept(
            s,
            keep,
        )[k]).1@ != name by {
            if k < head.len() {
                assert(kept(s, keep)[k] == s[0]);
            } else {
                assert(kept(s, keep)[k] == tail[k - head.len()]);
            }
        }
    } else {
        assert(kept(s, keep).len() == 0);
    }
}

/// No two clients go by the same name.
pub open spec fn names_unique<C>(clients: Seq<(C, String)>) -> bool {
    forall|i: int, j: int|
        0 <= i < clients.len() && 0 <= j < clients.len() && i != j ==> (#[trigger] clients[i]).1@
            != (#[trigger] clients[j]).1@
}

/// Registering an accepted name keeps the names unique.
pub proof fn lemma_accept_keeps_names_unique<C>(clients: Seq<(C, String)>, conn: C, name: String)
    requires
        names_unique(clients),
        !is_registered(clients, name@),
    ensures
        names_unique(clients.push((conn, name))),
{
    let after = clients.push((conn, name));
    assert forall|i: int, j: int|
        0 <= i < after.len() && 0 <= j < after.len() && i != j implies (#[trigger] after[i]).1@
            != (#[trigger] after[j]).1@ by {
        if i == clients.len() {
            assert(after[j] == clients[j]);
        } else if j == clients.len() {
            assert(after[i] == clients[i]);
        } else {
            assert(after[i] == clients[i] && after[j] == clients[j]);
        }
    }
}

/// Where names are unique, a client that a pass drops is no longer
/// registered, so no later pass reaches it.
pub proof fn lemma_dropped_client_is_gone<C>(clients: Seq<(C, String)>, keep: Seq<bool>, b: int)
    requires
        keep.len() == clients.len(),
        names_unique(clients),
        0 <= b < clients.len(),
        !keep[b],
    ensures
        !is_registered(kept(clients, keep), clients[b].1@),
{
    assert forall|i: int| 0 <= i < clients.len() && keep[i] implies (#[trigger] clients[i]).1@
        != clients[b].1@ by {
        assert(i != b);
    }
    lemma_kept_excludes(clients, keep, clients[b].1@);
}

/// Removes from `v` the items whose flag in `keep` is clear, keeping the order
/// of the others.
pub fn retain_kept<T>(v: &mut Vec<T>, keep: &[bool])
    requires
        keep@.len() == old(v)@.len(),
    ensures
        final(v)@ == kept(old(v)@, keep@),
{
    let ghost orig = v@;
    let n = v.len();
    let mut i: usize = n;
    assert(orig.subrange(n as int, n as int).len() == 0);
    assert(v@ =~= orig.subrange(0, n as int) + kept(orig.subrange(n as int, n as int), keep@.subrange(n as int, n as int)));
    while i > 0
        invariant
            n == orig.len(),
            keep@.len() == n,
            i <= n,
            v@ == orig.subrange(0, i as int) + kept(orig.subrange(i as int, n as int), keep@.subrange(i as int, n as int)),
        decreases i,
    {
        let ghost tail = kept(orig.subrange(i as int, n as int), keep@.subrange(i as int, n as int));
        assert(orig.subrange(i - 1, n as int).drop_first() =~= orig.subrange(i as int, n as int));
        assert(keep@.subrange(i - 1, n as int).drop_first() =~= keep@.subrange(i as int, n as int));
        if !keep[i - 1] {
            v.remove(i - 1);
            assert(v@ =~= orig.subrange(0, i - 1) + tail);
        } else {
            assert(v@ =~= orig.subrange(0, i - 1) + (seq![orig[i - 1]] + tail));
        }
        i = i - 1;
    }
    assert(orig.subrange(0, n as int) =~= orig);
    assert(v@ =~= kept(orig, keep@)) by {
        assert(orig.subrange(0, 0) + kept(orig, keep@) =~= kept(orig, keep@));
        assert(orig.subrange(0, n as int) =~= orig);
        assert(keep@.subrange(0, n as int) =~= keep@);
    }
}

/// Where a joining client stands after the server's reply to its name.
#[derive(PartialEq, Eq, Debug)]
pub enum Joining {
    /// The name was accepted into the room `room` of `admin`.
    Welcomed { room: String, admin: String },
    /// The name is taken: the client must send another.
    NameTaken,
    /// The server answered something else; the client gives up.
    Unexpected(Code),
}

/// Reads the server's reply to a client's name.
pub fn joining(reply: Code) -> (r: Joining)
    ensures
        match reply@ {
            Message::Welcome(room, admin) => r matches Joining::Welcomed { room: rr, admin: ra }
                && rr@ == room && ra@ == admin,
            Message::AlreadyHere => r is NameTaken,
            _ => r matches Joining::Unexpected(c) && c@ == reply@,
        },
{
    match reply {
        Code::Welcome(room, admin) => Joining::Welcomed { room, admin },
        Code::AlreadyHere => Joining::NameTaken,
        other => Joining::Unexpected(other),
    }
}

} // verus!
