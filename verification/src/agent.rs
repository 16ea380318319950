//! Agent bookkeeping: the table of open threads with their debounced
//! updates, the agent list order, permission options, and the text a thread
//! snapshot shows.

use vstd::prelude::*;
use crate::keyed::KeyedMap;
use crate::json::{
    collect_input_paths, input_paths, lemma_member_paths_collected, members_paths, string_views,
    JsonValue,
};
use crate::text::is_ws;
use crate::protocol::{AgentInfo, ThreadList, ThreadSummary};
use crate::text::{chars_of, compare_chars, lex_lt, push_str, string_from_chars, Order};

verus! {

/// What `format!("{:?}", s)` prints for a string: `s` quoted, with escapes.
pub uninterp spec fn debug_str(s: Seq<char>) -> Seq<char>;

/// Calls `<str as Debug>::fmt` through `format!`; the text is `debug_str`
/// of the argument.
#[verifier::external_body]
fn debug_string(s: &str) -> (r: String)
    ensures
        r@ == debug_str(s@),
{
    format!("{:?}", s)
}

/// Why an agent request failed.
#[derive(Debug, Clone, PartialEq)]
pub enum AgentError {
    /// No open thread has this id.
    UnknownThread(String),
    /// The workspace has no agent with this id.
    UnknownAgent(String),
    /// The tool call is not waiting for a permission option with this id.
    NotWaiting { tool_call_id: String, option_id: String },
}

/// The text the client receives for `e`.
pub open spec fn agent_error_text(e: AgentError) -> Seq<char> {
    match e {
        AgentError::UnknownThread(id) => "unknown thread "@ + id@,
        AgentError::UnknownAgent(id) => "unknown agent "@ + debug_str(id@),
        AgentError::NotWaiting { tool_call_id, option_id } => "tool call "@ + tool_call_id@
            + " is not waiting for option "@ + debug_str(option_id@),
    }
}

impl AgentError {
    /// The message sent back for this error.
    pub fn message(&self) -> (s: String)
        ensures
            s@ == agent_error_text(*self),
    {
        let mut s = String::new();
        match self {
            AgentError::UnknownThread(id) => {
                push_str(&mut s, "unknown thread ");
                push_str(&mut s, id.as_str());
            },
            AgentError::UnknownAgent(id) => {
                push_str(&mut s, "unknown agent ");
                let d = debug_string(id.as_str());
                push_str(&mut s, d.as_str());
            },
            AgentError::NotWaiting { tool_call_id, option_id } => {
                push_str(&mut s, "tool call ");
                push_str(&mut s, tool_call_id.as_str());
                push_str(&mut s, " is not waiting for option ");
                let d = debug_string(option_id.as_str());
                push_str(&mut s, d.as_str());
            },
        }
        assert(s@ =~= agent_error_text(*self));
        s
    }
}

/// A copy of `s`.
fn copy_str(s: &str) -> (r: String)
    ensures
        r@ == s@,
{
    let v = chars_of(s);
    string_from_chars(&v)
}

/// Fails with `UnknownAgent` unless `agent_id` is one of `known`.
pub fn check_agent_known(agent_id: &str, known: &Vec<String>) -> (r: Result<(), AgentError>)
    ensures
        match r {
            Ok(()) => exists|i: int| 0 <= i < known@.len() && (#[trigger] known@[i])@ == agent_id@,
            Err(e) => e == AgentError::UnknownAgent(e->UnknownAgent_0) && e->UnknownAgent_0@
                == agent_id@ && forall|i: int|
                0 <= i < known@.len() ==> (#[trigger] known@[i])@ != agent_id@,
        },
{
    let v = chars_of(agent_id);
    let mut i: usize = 0;
    while i < known.len()
        invariant
            v@ == agent_id@,
            i <= known@.len(),
            forall|j: int| 0 <= j < i ==> (#[trigger] known@[j])@ != agent_id@,
        decreases known@.len() - i,
    {
        let w = chars_of(known[i].as_str());
        if compare_chars(&w, &v) == Order::Equal {
            return Ok(());
        }
        i = i + 1;
    }
    Err(AgentError::UnknownAgent(copy_str(agent_id)))
}

/// An open thread: the agent serving it, the thread itself, and the update
/// scheduled for it, if one is.
pub struct OpenThread<T, P> {
    pub agent_id: String,
    pub thread: T,
    pub pending_update: Option<P>,
}

/// The threads open in the workspace, by thread id.
pub struct ThreadTable<T, P> {
    threads: KeyedMap<OpenThread<T, P>>,
}

impl<T, P> ThreadTable<T, P> {
    /// The open threads by id.
    pub closed spec fn view(&self) -> Map<Seq<char>, OpenThread<T, P>> {
        self.threads.view()
    }

    /// The table's keys are distinct.
    pub closed spec fn wf(&self) -> bool {
        self.threads.wf()
    }

    /// No open threads.
    pub fn new() -> (t: Self)
        ensures
            t.wf(),
            t.view() == Map::<Seq<char>, OpenThread<T, P>>::empty(),
    {
        ThreadTable { threads: KeyedMap::new() }
    }

    /// Records `thread` as open under `thread_id`, served by `agent_id`, with
    /// no update scheduled (replacing a thread open under the same id).
    pub fn open_thread(&mut self, thread_id: String, agent_id: String, thread: T)
        requires
            old(self).wf(),
        ensures
            final(self).wf(),
            final(self).view() == old(self).view().insert(
                thread_id@,
                OpenThread { agent_id, thread, pending_update: None },
            ),
    {
        self.threads.insert(thread_id, OpenThread { agent_id, thread, pending_update: None });
    }

    /// The open thread under `thread_id`, if any.
    pub fn get(&self, thread_id: &str) -> (r: Option<&OpenThread<T, P>>)
        requires
            self.wf(),
        ensures
            match r {
                Some(t) => self.view().contains_key(thread_id@) && *t == self.view()[thread_id@],
                None => !self.view().contains_key(thread_id@),
            },
    {
        self.threads.get(thread_id)
    }

    /// The thread under `thread_id`, or `UnknownThread`.
    pub fn thread(&self, thread_id: &str) -> (r: Result<&T, AgentError>)
        requires
            self.wf(),
        ensures
            match r {
                Ok(t) => self.view().contains_key(thread_id@) && *t
                    == self.view()[thread_id@].thread,
                Err(e) => !self.view().contains_key(thread_id@) && e == AgentError::UnknownThread(
                    e->UnknownThread_0,
                ) && e->UnknownThread_0@ == thread_id@,
            },
    {
        match self.threads.get(thread_id) {
            Some(open) => Ok(&open.thread),
            None => Err(AgentError::UnknownThread(copy_str(thread_id))),
        }
    }

    /// Closes the thread under `thread_id`, or fails with `UnknownThread`.
    pub fn close(&mut self, thread_id: &str) -> (r: Result<(), AgentError>)
        requires
            old(self).wf(),
        ensures
            final(self).wf(),
            final(self).view() == old(self).view().remove(thread_id@),
            match r {
                Ok(()) => old(self).view().contains_key(thread_id@),
                Err(e) => !old(self).view().contains_key(thread_id@) && e
                    == AgentError::UnknownThread(e->UnknownThread_0) && e->UnknownThread_0@
                    == thread_id@,
            },
    {
        match self.threads.remove(thread_id) {
            Some(_) => Ok(()),
            None => Err(AgentError::UnknownThread(copy_str(thread_id))),
        }
    }

    /// Forgets the thread under `thread_id`, if one is open (after its
    /// session was deleted).
    pub fn forget(&mut self, thread_id: &str)
        requires
            old(self).wf(),
        ensures
            final(self).wf(),
            final(self).view() == old(self).view().remove(thread_id@),
    {
        self.threads.remove(thread_id);
    }

    /// Whether a change of the thread should schedule an update: the thread
    /// is open and no update is scheduled for it yet.
    pub fn should_schedule_update(&self, thread_id: &str) -> (r: bool)
        requires
            self.wf(),
        ensures
            r == (self.view().contains_key(thread_id@)
                && self.view()[thread_id@].pending_update is None),
    {
        match self.threads.get(thread_id) {
            Some(open) => open.pending_update.is_none(),
            None => false,
        }
    }

    /// Records `task` as the update scheduled for the thread, if it is open.
    pub fn set_pending(&mut self, thread_id: &str, task: P)
        requires
            old(self).wf(),
        ensures
            final(self).wf(),
            final(self).view() == if old(self).view().contains_key(thread_id@) {
                old(self).view().insert(
                    thread_id@,
                    OpenThread { pending_update: Some(task), ..old(self).view()[thread_id@] },
                )
            } else {
                old(self).view()
            },
    {
        match self.threads.remove(thread_id) {
            Some(open) => {
                let OpenThread { agent_id, thread, pending_update: _ } = open;
                self.threads.insert(
                    copy_str(thread_id),
                    OpenThread { agent_id, thread, pending_update: Some(task) },
                );
                assert(final(self).view() =~= old(self).view().insert(
                    thread_id@,
                    OpenThread { pending_update: Some(task), ..old(self).view()[thread_id@] },
                ));
            },
            None => {
                assert(old(self).view().remove(thread_id@) =~= old(self).view());
            },
        }
    }

    /// Marks the scheduled update of the thread as run, giving back its
    /// task; `None` when the thread is not open or had none.
    pub fn finish_update(&mut self, thread_id: &str) -> (task: Option<P>)
        requires
            old(self).wf(),
        ensures
            final(self).wf(),
            final(self).view() == if old(self).view().contains_key(thread_id@) {
                old(self).view().insert(
                    thread_id@,
                    OpenThread { pending_update: None, ..old(self).view()[thread_id@] },
                )
            } else {
                old(self).view()
            },
            task == if old(self).view().contains_key(thread_id@) {
                old(self).view()[thread_id@].pending_update
            } else {
                None
            },
    {
        match self.threads.remove(thread_id) {
            Some(open) => {
                let OpenThread { agent_id, thread, pending_update } = open;
                self.threads.insert(
                    copy_str(thread_id),
                    OpenThread { agent_id, thread, pending_update: None },
                );
                assert(final(self).view() =~= old(self).view().insert(
                    thread_id@,
                    OpenThread { pending_update: None, ..old(self).view()[thread_id@] },
                ));
                pending_update
            },
            None => {
                assert(old(self).view().remove(thread_id@) =~= old(self).view());
                None
            },
        }
    }
}


/// `x` put into `s` (ordered by name) after every agent whose name is not
/// greater than its own.
pub open spec fn insert_by_name(s: Seq<AgentInfo>, x: AgentInfo) -> Seq<AgentInfo>
    decreases s.len(),
{
    if s.len() == 0 {
        seq![x]
    } else if lex_lt(x.name@, s.last().name@) {
        insert_by_name(s.drop_last(), x).push(s.last())
    } else {
        s.push(x)
    }
}

/// `s` ordered by name, agents with equal names in their original order
/// (what a stable `sort_by` on the name gives).
pub open spec fn sorted_by_name(s: Seq<AgentInfo>) -> Seq<AgentInfo>
    decreases s.len(),
{
    if s.len() == 0 {
        seq![]
    } else {
        insert_by_name(sorted_by_name(s.drop_last()), s.last())
    }
}

proof fn lemma_insert_at(s: Seq<AgentInfo>, x: AgentInfo, p: int)
    requires
        0 <= p <= s.len(),
        forall|k: int| p <= k < s.len() ==> lex_lt(x.name@, (#[trigger] s[k]).name@),
        p > 0 ==> !lex_lt(x.name@, s[p - 1].name@),
    ensures
        insert_by_name(s, x) == s.insert(p, x),
    decreases s.len(),
{
    if s.len() == 0 {
        assert(s.insert(p, x) =~= seq![x]);
    } else if p == s.len() {
        assert(s.last() == s[p - 1]);
        assert(s.insert(p, x) =~= s.push(x));
    } else {
        assert(lex_lt(x.name@, s[s.len() - 1].name@));
        let d = s.drop_last();
        assert forall|k: int| p <= k < d.len() implies lex_lt(x.name@, (#[trigger] d[k]).name@) by {
            assert(d[k] == s[k]);
        }
        if p > 0 {
            assert(d[p - 1] == s[p - 1]);
        }
        lemma_insert_at(d, x, p);
        assert(d.insert(p, x).push(s.last()) =~= s.insert(p, x));
    }
}

/// Agents ordered by name, equal names keeping their order.
pub fn sort_agents_by_name(agents: Vec<AgentInfo>) -> (sorted: Vec<AgentInfo>)
    ensures
        sorted@ == sorted_by_name(agents@),
{
    let ghost input = agents@;
    let mut rest = agents;
    let mut out: Vec<AgentInfo> = Vec::new();
    let mut names: Vec<Vec<char>> = Vec::new();
    let n = rest.len();
    let mut i: usize = 0;
    assert(input.take(0) =~= Seq::<AgentInfo>::empty());
    while i < n
        invariant
            n == input.len(),
            i <= n,
            rest@ == input.skip(i as int),
            out@ == sorted_by_name(input.take(i as int)),
            names@.len() == out@.len(),
            forall|k: int| 0 <= k < out@.len() ==> (#[trigger] names@[k])@ == out@[k].name@,
        decreases n - i,
    {
        let x = rest.remove(0);
        assert(x == input[i as int]);
        let xn = chars_of(x.name.as_str());
        let mut p = out.len();
        while p > 0 && compare_chars(&xn, &names[p - 1]) == Order::Less
            invariant
                p <= out@.len(),
                names@.len() == out@.len(),
                forall|k: int| 0 <= k < out@.len() ==> (#[trigger] names@[k])@ == out@[k].name@,
                xn@ == x.name@,
                forall|k: int| p <= k < out@.len() ==> lex_lt(x.name@, (#[trigger] out@[k]).name@),
            decreases p,
        {
            p = p - 1;
        }
        proof {
            assert(input.take(i + 1).drop_last() =~= input.take(i as int));
            assert(input.take(i + 1).last() == x);
            lemma_insert_at(out@, x, p as int);
        }
        let ghost old_out = out@;
        let ghost old_names = names@;
        out.insert(p, x);
        names.insert(p, xn);
        assert forall|k: int| 0 <= k < out@.len() implies (#[trigger] names@[k])@ == out@[k].name@ by {
            if k < p {
                assert(names@[k] == old_names[k] && out@[k] == old_out[k]);
            } else if k > p {
                assert(names@[k] == old_names[k - 1] && out@[k] == old_out[k - 1]);
            }
        }
        assert(rest@ =~= input.skip(i + 1));
        i = i + 1;
    }
    assert(input.take(n as int) =~= input);
    out
}

/// Names never decrease along `s`.
pub open spec fn names_sorted(s: Seq<AgentInfo>) -> bool {
    forall|i: int, j: int| 0 <= i < j < s.len() ==> !lex_lt((#[trigger] s[j]).name@, (#[trigger] s[i]).name@)
}

proof fn lemma_insert_sorted(s: Seq<AgentInfo>, x: AgentInfo)
    requires
        names_sorted(s),
    ensures
        names_sorted(insert_by_name(s, x)),
        insert_by_name(s, x).to_multiset() == s.to_multiset().insert(x),
    decreases s.len(),
{
    broadcast use vstd::multiset::group_multiset_axioms, vstd::seq_lib::group_to_multiset_ensures;
    if s.len() == 0 {
        assert(seq![x] =~= Seq::<AgentInfo>::empty().push(x));
    } else {
        let d = s.drop_last();
        let l = s.last();
        assert(s =~= d.push(l));
        assert forall|i: int, j: int| 0 <= i < j < d.len() implies !lex_lt(
            (#[trigger] d[j]).name@,
            (#[trigger] d[i]).name@,
        ) by {
            assert(d[i] == s[i] && d[j] == s[j]);
        }
        if lex_lt(x.name@, l.name@) {
            lemma_insert_sorted(d, x);
            let r = insert_by_name(d, x);
            assert forall|i: int, j: int| 0 <= i < j < r.push(l).len() implies !lex_lt(
                (#[trigger] r.push(l)[j]).name@,
                (#[trigger] r.push(l)[i]).name@,
            ) by {
                if j == r.len() {
                    let e = r[i];
                    assert(r.to_multiset().contains(e));
                    assert(d.to_multiset().insert(x).contains(e));
                    if e != x {
                        assert(d.to_multiset().contains(e));
                        assert(d.contains(e));
                        let k = choose|k: int| 0 <= k < d.len() && d[k] == e;
                        assert(s[k] == e);
                        assert(!lex_lt(s[s.len() - 1].name@, s[k].name@));
                    } else {
                        crate::text::lemma_lex_lt_strict_total(x.name@, l.name@);
                    }
                } else {
                    assert(r.push(l)[i] == r[i] && r.push(l)[j] == r[j]);
                }
            }
            assert(r.push(l).to_multiset() =~= s.to_multiset().insert(x));
        } else {
            assert forall|i: int, j: int| 0 <= i < j < s.push(x).len() implies !lex_lt(
                (#[trigger] s.push(x)[j]).name@,
                (#[trigger] s.push(x)[i]).name@,
            ) by {
                if j == s.len() {
                    if i < s.len() - 1 {
                        assert(!lex_lt(s[s.len() - 1].name@, s[i].name@));
                        crate::text::lemma_lex_lt_strict_total(x.name@, s[i].name@);
                        crate::text::lemma_lex_lt_strict_total(l.name@, s[i].name@);
                        crate::text::lemma_lex_lt_strict_total(x.name@, l.name@);
                        if lex_lt(x.name@, s[i].name@) {
                            if l.name@ == s[i].name@ {
                            } else {
                                crate::text::lemma_lex_lt_transitive(s[i].name@, l.name@, x.name@);
                            }
                        }
                    } else {
                        assert(s[i] == l);
                    }
                } else {
                    assert(s.push(x)[i] == s[i] && s.push(x)[j] == s[j]);
                }
            }
        }
    }
}

/// The agent list comes out ordered by name and holds the same agents.
pub proof fn lemma_sorted_by_name(s: Seq<AgentInfo>)
    ensures
        names_sorted(sorted_by_name(s)),
        sorted_by_name(s).to_multiset() == s.to_multiset(),
    decreases s.len(),
{
    broadcast use vstd::multiset::group_multiset_axioms, vstd::seq_lib::group_to_multiset_ensures;
    if s.len() > 0 {
        lemma_sorted_by_name(s.drop_last());
        lemma_insert_sorted(sorted_by_name(s.drop_last()), s.last());
        assert(s =~= s.drop_last().push(s.last()));
    }
}


/// A permission option of a tool call: its id, its label and its kind.
pub struct PermissionChoice<K> {
    pub option_id: String,
    pub name: String,
    pub kind: K,
}

/// The options a tool call waits on: a flat list, or allow/deny pairs.
pub enum PermissionOptions<K> {
    Flat(Vec<PermissionChoice<K>>),
    Dropdown(Vec<(PermissionChoice<K>, PermissionChoice<K>)>),
}

/// The options of allow/deny pairs, each pair's allow before its deny.
pub open spec fn pairs_flat<K>(pairs: Seq<(PermissionChoice<K>, PermissionChoice<K>)>) -> Seq<
    PermissionChoice<K>,
>
    decreases pairs.len(),
{
    if pairs.len() == 0 {
        seq![]
    } else {
        pairs_flat(pairs.drop_last()).push(pairs.last().0).push(pairs.last().1)
    }
}

/// Every option, in order.
pub open spec fn options_flat<K>(o: PermissionOptions<K>) -> Seq<PermissionChoice<K>> {
    match o {
        PermissionOptions::Flat(v) => v@,
        PermissionOptions::Dropdown(pairs) => pairs_flat(pairs@),
    }
}

/// The options a tool call offers, in order.
pub fn permission_options<K>(options: &PermissionOptions<K>) -> (r: Vec<&PermissionChoice<K>>)
    ensures
        r@.map_values(|c: &PermissionChoice<K>| *c) == options_flat(*options),
{
    let mut r: Vec<&PermissionChoice<K>> = Vec::new();
    match options {
        PermissionOptions::Flat(v) => {
            let mut i: usize = 0;
            while i < v.len()
                invariant
                    i <= v@.len(),
                    r@.map_values(|c: &PermissionChoice<K>| *c) == v@.take(i as int),
                decreases v@.len() - i,
            {
                let ghost before = r@.map_values(|c: &PermissionChoice<K>| *c);
                r.push(&v[i]);
                assert(r@.map_values(|c: &PermissionChoice<K>| *c) =~= before.push(v@[i as int]));
                assert(v@.take(i + 1) =~= v@.take(i as int).push(v@[i as int]));
                i = i + 1;
            }
            assert(v@.take(i as int) =~= v@);
        },
        PermissionOptions::Dropdown(pairs) => {
            let mut i: usize = 0;
            assert(pairs@.take(0) =~= Seq::<(PermissionChoice<K>, PermissionChoice<K>)>::empty());
            while i < pairs.len()
                invariant
                    i <= pairs@.len(),
                    r@.map_values(|c: &PermissionChoice<K>| *c) == pairs_flat(pairs@.take(i as int)),
                decreases pairs@.len() - i,
            {
                let ghost before = r@.map_values(|c: &PermissionChoice<K>| *c);
                r.push(&pairs[i].0);
                r.push(&pairs[i].1);
                proof {
                    assert(pairs@.take(i + 1).drop_last() =~= pairs@.take(i as int));
                    assert(pairs@.take(i + 1).last() == pairs@[i as int]);
                    assert(r@.map_values(|c: &PermissionChoice<K>| *c) =~= before.push(
                        pairs@[i as int].0,
                    ).push(pairs@[i as int].1));
                }
                i = i + 1;
            }
            assert(pairs@.take(i as int) =~= pairs@);
        },
    }
    r
}

/// An entry of a thread as permission lookup sees it: a tool call with its
/// id and, when it waits for confirmation, its options; or anything else.
pub enum ThreadItem<K> {
    ToolCall { id: String, waiting: Option<PermissionOptions<K>> },
    Other,
}

/// The kind of the first option with this id.
pub open spec fn option_kind<K>(opts: Seq<PermissionChoice<K>>, option_id: Seq<char>) -> Option<K>
    decreases opts.len(),
{
    if opts.len() == 0 {
        None
    } else if opts[0].option_id@ == option_id {
        Some(opts[0].kind)
    } else {
        option_kind(opts.drop_first(), option_id)
    }
}

/// The kind an entry yields: a tool call with this id that waits for an
/// option with this id.
pub open spec fn item_kind<K>(item: ThreadItem<K>, tool_call_id: Seq<char>, option_id: Seq<char>) -> Option<K> {
    match item {
        ThreadItem::ToolCall { id, waiting } => if id@ == tool_call_id {
            match waiting {
                Some(opts) => option_kind(options_flat(opts), option_id),
                None => None,
            }
        } else {
            None
        },
        ThreadItem::Other => None,
    }
}

/// The kind the first entry that yields one yields.
pub open spec fn find_kind<K>(items: Seq<ThreadItem<K>>, tool_call_id: Seq<char>, option_id: Seq<char>) -> Option<K>
    decreases items.len(),
{
    if items.len() == 0 {
        None
    } else {
        match item_kind(items[0], tool_call_id, option_id) {
            Some(k) => Some(k),
            None => find_kind(items.drop_first(), tool_call_id, option_id),
        }
    }
}

/// Option `j` of `opts` has exactly the id `option_id`.
pub open spec fn has_id<K>(opts: Seq<PermissionChoice<K>>, j: int, option_id: Seq<char>) -> bool {
    0 <= j < opts.len() && opts[j].option_id@ == option_id
}

/// Whether `item` is tool call `tool_call_id` waiting on an option whose id
/// is exactly `option_id`.
pub open spec fn offers_option<K>(item: ThreadItem<K>, tool_call_id: Seq<char>, option_id: Seq<char>) -> bool {
    match item {
        ThreadItem::ToolCall { id, waiting: Some(o) } => id@ == tool_call_id && exists|j: int|
            #[trigger] has_id(options_flat(o), j, option_id),
        _ => false,
    }
}

/// Whether `item` is tool call `tool_call_id` whose first option with id
/// exactly `option_id` has kind `k`.
pub open spec fn offers_kind<K>(item: ThreadItem<K>, tool_call_id: Seq<char>, option_id: Seq<char>, k: K) -> bool {
    match item {
        ThreadItem::ToolCall { id, waiting: Some(o) } => id@ == tool_call_id && exists|j: int|
            #[trigger] has_id(options_flat(o), j, option_id) && options_flat(o)[j].kind == k
                && forall|l: int| 0 <= l < j ==> !has_id(options_flat(o), l, option_id),
        _ => false,
    }
}

/// Option lookup matches ids exactly: it gives the kind of the first option
/// whose id equals the requested one, and nothing when no id equals it (an id
/// that merely starts with the requested one never matches).
pub proof fn lemma_option_kind_exact<K>(opts: Seq<PermissionChoice<K>>, option_id: Seq<char>)
    ensures
        match option_kind(opts, option_id) {
            Some(k) => exists|j: int|
                #[trigger] has_id(opts, j, option_id) && opts[j].kind == k && forall|l: int|
                    0 <= l < j ==> !has_id(opts, l, option_id),
            None => forall|j: int| !#[trigger] has_id(opts, j, option_id),
        },
    decreases opts.len(),
{
    if opts.len() > 0 {
        let d = opts.drop_first();
        lemma_option_kind_exact(d, option_id);
        if opts[0].option_id@ == option_id {
            assert(has_id(opts, 0, option_id));
        } else {
            assert forall|j: int| 1 <= j < opts.len() implies has_id(opts, j, option_id)
                == has_id(d, j - 1, option_id) by {
                assert(opts[j] == d[j - 1]);
            }
            match option_kind(d, option_id) {
                Some(k) => {
                    let j = choose|j: int|
                        #[trigger] has_id(d, j, option_id) && d[j].kind == k && forall|l: int|
                            0 <= l < j ==> !has_id(d, l, option_id);
                    assert(has_id(opts, j + 1, option_id));
                    assert forall|l: int| 0 <= l < j + 1 implies !has_id(opts, l, option_id) by {
                        if l > 0 {
                            assert(!has_id(d, l - 1, option_id));
                        }
                    }
                },
                None => {
                    assert forall|j: int| !#[trigger] has_id(opts, j, option_id) by {
                        if 1 <= j < opts.len() {
                            assert(!has_id(d, j - 1, option_id));
                        }
                    }
                },
            }
        }
    }
}

/// Authorisation finds the chosen option by exact ids: a kind comes back only
/// from the first entry that is tool call `tool_call_id` waiting on an option
/// whose id equals `option_id`, and it is the kind of the first such option;
/// when no entry offers such an option, none comes back.
pub proof fn lemma_find_kind_exact<K>(
    items: Seq<ThreadItem<K>>,
    tool_call_id: Seq<char>,
    option_id: Seq<char>,
)
    ensures
        match find_kind(items, tool_call_id, option_id) {
            Some(k) => exists|i: int|
                0 <= i < items.len() && #[trigger] offers_kind(items[i], tool_call_id, option_id, k)
                    && forall|l: int|
                    0 <= l < i ==> !offers_option(items[l], tool_call_id, option_id),
            None => forall|i: int|
                0 <= i < items.len() ==> !#[trigger] offers_option(items[i], tool_call_id, option_id),
        },
    decreases items.len(),
{
    if items.len() > 0 {
        let d = items.drop_first();
        lemma_find_kind_exact(d, tool_call_id, option_id);
        let first = items[0];
        match first {
            ThreadItem::ToolCall { id, waiting: Some(o) } => {
                lemma_option_kind_exact(options_flat(o), option_id);
            },
            _ => {},
        }
        assert forall|i: int| 1 <= i < items.len() implies items[i] == d[i - 1] by {}
        match item_kind(first, tool_call_id, option_id) {
            Some(k) => {
                assert(offers_kind(items[0], tool_call_id, option_id, k));
            },
            None => {
                assert(!offers_option(items[0], tool_call_id, option_id));
                match find_kind(d, tool_call_id, option_id) {
                    Some(k) => {
                        let i = choose|i: int|
                            0 <= i < d.len() && #[trigger] offers_kind(d[i], tool_call_id, option_id, k)
                                && forall|l: int|
                                0 <= l < i ==> !offers_option(d[l], tool_call_id, option_id);
                        assert(offers_kind(items[i + 1], tool_call_id, option_id, k));
                        assert forall|l: int| 0 <= l < i + 1 implies !offers_option(
                            items[l],
                            tool_call_id,
                            option_id,
                        ) by {
                            if l > 0 {
                                assert(!offers_option(d[l - 1], tool_call_id, option_id));
                            }
                        }
                    },
                    None => {
                        assert forall|i: int| 0 <= i < items.len() implies !#[trigger] offers_option(
                            items[i],
                            tool_call_id,
                            option_id,
                        ) by {
                            if i > 0 {
                                assert(!offers_option(d[i - 1], tool_call_id, option_id));
                            }
                        }
                    },
                }
            },
        }
    }
}

fn option_kind_exec<K: Copy>(opts: &Vec<&PermissionChoice<K>>, option_id: &str) -> (r: Option<K>)
    ensures
        r == option_kind(opts@.map_values(|c: &PermissionChoice<K>| *c), option_id@),
{
    let ghost all = opts@.map_values(|c: &PermissionChoice<K>| *c);
    let want = chars_of(option_id);
    let mut i: usize = 0;
    assert(all.skip(0) =~= all);
    while i < opts.len()
        invariant
            all == opts@.map_values(|c: &PermissionChoice<K>| *c),
            want@ == option_id@,
            i <= opts@.len(),
            option_kind(all, option_id@) == option_kind(all.skip(i as int), option_id@),
        decreases opts@.len() - i,
    {
        let o = opts[i];
        assert(all.skip(i as int)[0] == *o);
        let id = chars_of(o.option_id.as_str());
        if compare_chars(&id, &want) == Order::Equal {
            return Some(o.kind);
        }
        assert(all.skip(i as int).drop_first() =~= all.skip(i + 1));
        i = i + 1;
    }
    None
}

/// The kind of the permission option `option_id` that tool call
/// `tool_call_id` waits for, searching the entries in order; `NotWaiting`
/// when no entry yields one.
pub fn find_option_kind<K: Copy>(
    items: &Vec<ThreadItem<K>>,
    tool_call_id: &str,
    option_id: &str,
) -> (r: Result<K, AgentError>)
    ensures
        match r {
            Ok(k) => find_kind(items@, tool_call_id@, option_id@) == Some(k),
            Err(e) => find_kind(items@, tool_call_id@, option_id@) is None && e is NotWaiting
                && e->tool_call_id@ == tool_call_id@ && e->option_id@ == option_id@,
        },
{
    let want = chars_of(tool_call_id);
    let mut i: usize = 0;
    assert(items@.skip(0) =~= items@);
    while i < items.len()
        invariant
            want@ == tool_call_id@,
            i <= items@.len(),
            find_kind(items@, tool_call_id@, option_id@) == find_kind(
                items@.skip(i as int),
                tool_call_id@,
                option_id@,
            ),
        decreases items@.len() - i,
    {
        assert(items@.skip(i as int)[0] == items@[i as int]);
        assert(items@.skip(i as int).drop_first() =~= items@.skip(i + 1));
        match &items[i] {
            ThreadItem::ToolCall { id, waiting } => {
                let idc = chars_of(id.as_str());
                if compare_chars(&idc, &want) == Order::Equal {
                    match waiting {
                        Some(opts) => {
                            let flat = permission_options(opts);
                            match option_kind_exec(&flat, option_id) {
                                Some(k) => {
                                    return Ok(k);
                                },
                                None => {},
                            }
                        },
                        None => {},
                    }
                }
            },
            ThreadItem::Other => {},
        }
        i = i + 1;
    }
    Err(
        AgentError::NotWaiting {
            tool_call_id: copy_str(tool_call_id),
            option_id: copy_str(option_id),
        },
    )
}

/// A chunk of an assistant message: reply text or thinking, as markdown.
pub enum AssistantChunk {
    Message(String),
    Thought(String),
}

/// The reply text and the thinking of a message: each chunk's markdown
/// appended, in order, to the one it belongs to.
pub open spec fn assistant_parts(chunks: Seq<AssistantChunk>) -> (Seq<char>, Seq<char>)
    decreases chunks.len(),
{
    if chunks.len() == 0 {
        (seq![], seq![])
    } else {
        let (m, t) = assistant_parts(chunks.drop_last());
        match chunks.last() {
            AssistantChunk::Message(s) => (m + s@, t),
            AssistantChunk::Thought(s) => (m, t + s@),
        }
    }
}

/// The reply markdown and the thoughts markdown of an assistant message.
pub fn assistant_text(chunks: &Vec<AssistantChunk>) -> (r: (String, String))
    ensures
        (r.0@, r.1@) == assistant_parts(chunks@),
{
    let mut markdown = String::new();
    let mut thoughts = String::new();
    let mut i: usize = 0;
    assert(chunks@.take(0) =~= Seq::<AssistantChunk>::empty());
    while i < chunks.len()
        invariant
            i <= chunks@.len(),
            (markdown@, thoughts@) == assistant_parts(chunks@.take(i as int)),
        decreases chunks@.len() - i,
    {
        assert(chunks@.take(i + 1).drop_last() =~= chunks@.take(i as int));
        assert(chunks@.take(i + 1).last() == chunks@[i as int]);
        match &chunks[i] {
            AssistantChunk::Message(s) => push_str(&mut markdown, s.as_str()),
            AssistantChunk::Thought(s) => push_str(&mut thoughts, s.as_str()),
        }
        i = i + 1;
    }
    assert(chunks@.take(i as int) =~= chunks@);
    (markdown, thoughts)
}

/// The parts joined with a blank line between each two.
pub open spec fn joined(parts: Seq<Seq<char>>) -> Seq<char>
    decreases parts.len(),
{
    if parts.len() == 0 {
        seq![]
    } else if parts.len() == 1 {
        parts[0]
    } else {
        joined(parts.drop_last()) + "\n\n"@ + parts.last()
    }
}

/// A tool call's content blocks as one markdown text, separated by blank
/// lines.
pub fn join_markdown(parts: &Vec<String>) -> (r: String)
    ensures
        r@ == joined(string_views(parts@)),
{
    let mut r = String::new();
    let mut i: usize = 0;
    assert(string_views(parts@).take(0) =~= Seq::<Seq<char>>::empty());
    while i < parts.len()
        invariant
            i <= parts@.len(),
            r@ == joined(string_views(parts@).take(i as int)),
        decreases parts@.len() - i,
    {
        let ghost sv = string_views(parts@);
        assert(sv.take(i + 1).drop_last() =~= sv.take(i as int));
        assert(sv.take(i + 1).last() == parts@[i as int]@);
        if i > 0 {
            push_str(&mut r, "\n\n");
        } else {
            assert(sv.take(1) =~= seq![parts@[0]@]);
        }
        push_str(&mut r, parts[i].as_str());
        i = i + 1;
        assert(r@ =~= joined(sv.take(i as int)));
    }
    assert(string_views(parts@).take(i as int) =~= string_views(parts@));
    r
}

/// Where a tool call stands.
#[derive(Debug, Clone, Copy, PartialEq, Eq, Structural)]
pub enum ToolCallState {
    Pending,
    WaitingForConfirmation,
    InProgress,
    Completed,
    Failed,
    Rejected,
    Canceled,
}

/// The wire name of each state.
pub open spec fn state_name(s: ToolCallState) -> Seq<char> {
    match s {
        ToolCallState::Pending => "pending"@,
        ToolCallState::WaitingForConfirmation => "waiting_for_confirmation"@,
        ToolCallState::InProgress => "in_progress"@,
        ToolCallState::Completed => "completed"@,
        ToolCallState::Failed => "failed"@,
        ToolCallState::Rejected => "rejected"@,
        ToolCallState::Canceled => "canceled"@,
    }
}

impl ToolCallState {
    /// The name the UI knows this state by.
    pub fn wire_name(&self) -> (r: String)
        ensures
            r@ == state_name(*self),
    {
        let name = match self {
            ToolCallState::Pending => "pending",
            ToolCallState::WaitingForConfirmation => "waiting_for_confirmation",
            ToolCallState::InProgress => "in_progress",
            ToolCallState::Completed => "completed",
            ToolCallState::Failed => "failed",
            ToolCallState::Rejected => "rejected",
            ToolCallState::Canceled => "canceled",
        };
        copy_str(name)
    }
}

/// `s` with each run of equal neighbours kept once (what `Vec::dedup` does).
pub open spec fn dedup<A>(s: Seq<A>) -> Seq<A>
    decreases s.len(),
{
    if s.len() <= 1 {
        s
    } else if s.last() == s[s.len() - 2] {
        dedup(s.drop_last())
    } else {
        dedup(s.drop_last()).push(s.last())
    }
}

proof fn lemma_dedup_last<A>(s: Seq<A>)
    requires
        s.len() > 0,
    ensures
        dedup(s).len() > 0,
        dedup(s).last() == s.last(),
    decreases s.len(),
{
    if s.len() > 1 && s.last() == s[s.len() - 2] {
        lemma_dedup_last(s.drop_last());
        assert(s.drop_last().last() == s[s.len() - 2]);
    }
}

/// Keeps each run of equal neighbouring strings once.
pub fn dedup_strings(v: Vec<String>) -> (r: Vec<String>)
    ensures
        string_views(r@) == dedup(string_views(v@)),
{
    let ghost sv = string_views(v@);
    let mut r: Vec<String> = Vec::new();
    let mut i: usize = 0;
    assert(sv.take(0) =~= Seq::<Seq<char>>::empty());
    while i < v.len()
        invariant
            sv == string_views(v@),
            i <= v@.len(),
            string_views(r@) == dedup(sv.take(i as int)),
        decreases v@.len() - i,
    {
        let ghost t = sv.take(i + 1);
        assert(t.drop_last() =~= sv.take(i as int));
        assert(t.last() == v@[i as int]@);
        let same = if i == 0 {
            false
        } else {
            proof {
                lemma_dedup_last(sv.take(i as int));
                assert(sv.take(i as int).last() == v@[i - 1]@);
                assert(t[t.len() - 2] == v@[i - 1]@);
            }
            let last = r.len() - 1;
            assert(string_views(r@).last() == r@[last as int]@);
            r[last] == v[i]
        };
        if !same {
            let ghost before = string_views(r@);
            r.push(v[i].clone());
            assert(string_views(r@) =~= before.push(v@[i as int]@));
        }
        i = i + 1;
    }
    assert(sv.take(i as int) =~= sv);
    r
}

/// The locations a tool call touches: those the agent reports, then the
/// path-like strings of its raw input, with repeated neighbours dropped.
pub fn tool_call_locations(reported: Vec<String>, raw_input: Option<&JsonValue>) -> (r: Vec<String>)
    ensures
        string_views(r@) == dedup(
            string_views(reported@) + match raw_input {
                Some(v) => input_paths(*v),
                None => seq![],
            },
        ),
{
    let mut paths = reported;
    let ghost first = string_views(paths@);
    match raw_input {
        Some(input) => collect_input_paths(input, &mut paths),
        None => {
            assert(first + seq![] =~= first);
        },
    }
    dedup_strings(paths)
}

/// No two neighbours of a deduplicated list are equal.
pub proof fn lemma_dedup_no_repeats<A>(s: Seq<A>)
    ensures
        forall|i: int| 0 < i < dedup(s).len() ==> #[trigger] dedup(s)[i] != dedup(s)[i - 1],
    decreases s.len(),
{
    if s.len() > 1 {
        lemma_dedup_no_repeats(s.drop_last());
        let d = dedup(s.drop_last());
        if s.last() != s[s.len() - 2] {
            lemma_dedup_last(s.drop_last());
            let r = d.push(s.last());
            assert(dedup(s) == r);
            assert forall|i: int| 0 < i < r.len() implies #[trigger] r[i] != r[i - 1] by {
                if i == d.len() {
                    assert(r[i] == s.last());
                    assert(r[i - 1] == d[d.len() - 1]);
                    assert(d[d.len() - 1] == d.last());
                    assert(s.drop_last().last() == s[s.len() - 2]);
                } else {
                    assert(r[i] == d[i] && r[i - 1] == d[i - 1]);
                }
            }
        } else {
            assert(dedup(s) == d);
        }
    }
}

/// Dropping repeated neighbours loses no value: whatever occurs in `s`
/// occurs in `dedup(s)`.
pub proof fn lemma_dedup_keeps_values<A>(s: Seq<A>, x: A)
    ensures
        s.contains(x) ==> dedup(s).contains(x),
    decreases s.len(),
{
    if s.len() > 1 && s.contains(x) {
        let d = s.drop_last();
        lemma_dedup_keeps_values(d, x);
        let j = choose|j: int| 0 <= j < s.len() && s[j] == x;
        if j < s.len() - 1 {
            assert(d[j] == x);
        } else if s.last() == s[s.len() - 2] {
            assert(d[s.len() - 2] == x);
        }
        if s.last() != s[s.len() - 2] {
            let r = dedup(d).push(s.last());
            if d.contains(x) {
                let k = choose|k: int| 0 <= k < dedup(d).len() && dedup(d)[k] == x;
                assert(r[k] == x);
            } else {
                assert(r[r.len() - 1] == x);
            }
        }
    }
}

/// A tool call's locations include every string member of its raw input
/// object that contains a `/` and no whitespace, whatever its key and
/// whatever its first character (an absolute path included).
pub proof fn lemma_locations_include_slash_members(
    reported: Seq<Seq<char>>,
    members: Seq<(String, JsonValue)>,
    i: int,
)
    requires
        0 <= i < members.len(),
        members[i].1 is Str,
        exists|j: int| 0 <= j < members[i].1->Str_0@.len() && members[i].1->Str_0@[j] == '/',
        forall|j: int|
            0 <= j < members[i].1->Str_0@.len() ==> !is_ws(#[trigger] members[i].1->Str_0@[j]),
    ensures
        dedup(reported + members_paths(members)).contains(members[i].1->Str_0@),
{
    let t = members[i].1->Str_0@;
    lemma_member_paths_collected(members, i);
    let k = choose|k: int| 0 <= k < members_paths(members).len() && members_paths(members)[k] == t;
    assert((reported + members_paths(members))[reported.len() + k] == t);
    lemma_dedup_keeps_values(reported + members_paths(members), t);
}

/// The thread list an agent answers with: `listing` is `None` when the
/// agent keeps no session history (no history, no delete, no threads), else
/// whether it can delete sessions and its sessions' summaries in order.
pub fn thread_list(agent_id: String, listing: Option<(bool, Vec<ThreadSummary>)>) -> (r: ThreadList)
    ensures
        r.agent_id == agent_id,
        match listing {
            None => !r.supports_history && !r.supports_delete && r.threads@.len() == 0,
            Some((d, t)) => r.supports_history && r.supports_delete == d && r.threads@ == t@,
        },
{
    match listing {
        None => ThreadList {
            agent_id,
            supports_history: false,
            supports_delete: false,
            threads: Vec::new(),
        },
        Some((supports_delete, threads)) => ThreadList {
            agent_id,
            supports_history: true,
            supports_delete,
            threads,
        },
    }
}

} // verus!
