//! The loaded sessions of a program with several windows: each window owns the session
//! under its id, and asks it for what it shows.

use crate::model::{node_at, NodeId};
use crate::schematic::cone::cone_view;
use crate::schematic::scope::{scope_at, scope_view};
use crate::schematic::types::{Projection, SchematicGraph};
use crate::session::{dir_named, is_tree, scopes_at, signals_in, Session, TreeNode};
use crate::text::{all_chars, owned, same};
use crate::words::Phrase;
use vstd::prelude::*;
use vstd::string::*;

verus! {

broadcast use vstd::string::group_string_axioms;

/// The id of the main window, which is meant where none is given.
pub const DEFAULT_SESSION: &'static str = "main";

/// Loaded sessions under their ids.
pub struct Sessions {
    entries: Vec<(String, Session)>,
}

/// What is stored under each id: of several entries with one id, the last.
pub open spec fn stored(entries: Seq<(String, Session)>) -> Map<Seq<char>, Session>
    decreases entries.len(),
{
    if entries.len() == 0 {
        Map::empty()
    } else {
        stored(entries.drop_last()).insert(entries.last().0@, entries.last().1)
    }
}

/// The id that is meant.
pub open spec fn meant(id: Option<&str>) -> Seq<char> {
    match id {
        Some(s) => s@,
        None => DEFAULT_SESSION@,
    }
}

/// What is said where a session is not loaded.
pub open spec fn not_loaded(id: Option<&str>) -> Seq<char> {
    "no design loaded for session '"@ + meant(id) + "'"@
}

impl View for Sessions {
    type V = Map<Seq<char>, Session>;

    closed spec fn view(&self) -> Map<Seq<char>, Session> {
        stored(self.entries@)
    }
}

proof fn lemma_stored(entries: Seq<(String, Session)>, key: Seq<char>)
    ensures
        stored(entries).dom().contains(key) <==> exists|i: int|
            0 <= i < entries.len() && (#[trigger] entries[i]).0@ == key,
    decreases entries.len(),
{
    if entries.len() > 0 {
        let less = entries.drop_last();
        lemma_stored(less, key);
        if exists|i: int| 0 <= i < entries.len() && (#[trigger] entries[i]).0@ == key {
            let i = choose|i: int| 0 <= i < entries.len() && (#[trigger] entries[i]).0@ == key;
            if i < less.len() {
                assert(less[i].0@ == key);
            }
        }
        if exists|i: int| 0 <= i < less.len() && (#[trigger] less[i]).0@ == key {
            let i = choose|i: int| 0 <= i < less.len() && (#[trigger] less[i]).0@ == key;
            assert(entries[i].0@ == key);
        }
        if entries.last().0@ == key {
            assert(entries[entries.len() - 1].0@ == key);
        }
    }
}

proof fn lemma_stored_at(entries: Seq<(String, Session)>, i: int)
    requires
        0 <= i < entries.len(),
        forall|a: int, b: int|
            0 <= a < b < entries.len() ==> (#[trigger] entries[a]).0@ != (#[trigger] entries[b]).0@,
    ensures
        stored(entries).dom().contains(entries[i].0@),
        stored(entries)[entries[i].0@] == entries[i].1,
    decreases entries.len(),
{
    if i < entries.len() - 1 {
        let less = entries.drop_last();
        lemma_stored_at(less, i);
        assert(entries[i].0@ != entries[entries.len() - 1].0@);
    }
}

proof fn lemma_stored_without(entries: Seq<(String, Session)>, i: int)
    requires
        0 <= i < entries.len(),
        forall|a: int, b: int|
            0 <= a < b < entries.len() ==> (#[trigger] entries[a]).0@ != (#[trigger] entries[b]).0@,
    ensures
        stored(entries.remove(i)) == stored(entries).remove(entries[i].0@),
    decreases entries.len(),
{
    let key = entries[i].0@;
    let less = entries.drop_last();
    if i == entries.len() - 1 {
        assert(entries.remove(i) =~= less);
        lemma_stored(less, key);
        if stored(less).dom().contains(key) {
            let j = choose|j: int| 0 <= j < less.len() && (#[trigger] less[j]).0@ == key;
            assert(entries[j].0@ != entries[i].0@);
        }
        assert(stored(less) =~= stored(entries).remove(key));
    } else {
        lemma_stored_without(less, i);
        assert(entries.remove(i).drop_last() =~= less.remove(i));
        assert(entries[i].0@ != entries[entries.len() - 1].0@);
        assert(stored(entries.remove(i)) =~= stored(entries).remove(key));
    }
}

fn id_or_default<'a>(id: Option<&'a str>) -> (r: &'a str)
    ensures
        r@ == meant(id),
{
    match id {
        Some(s) => s,
        None => DEFAULT_SESSION,
    }
}

impl Sessions {
    /// Whether every id is stored once and every session can be asked.
    pub closed spec fn wf(&self) -> bool {
        &&& forall|a: int, b: int|
            0 <= a < b < self.entries@.len() ==> (#[trigger] self.entries@[a]).0@ != (
            #[trigger] self.entries@[b]).0@
        &&& forall|i: int| 0 <= i < self.entries@.len() ==> (#[trigger] self.entries@[i]).1.wf()
    }

    /// No sessions.
    pub fn new() -> (r: Sessions)
        ensures
            r.wf(),
            r@ == Map::<Seq<char>, Session>::empty(),
    {
        Sessions { entries: Vec::new() }
    }

    fn find(&self, id: &str) -> (r: Option<usize>)
        requires
            self.wf(),
        ensures
            match r {
                Some(i) => i < self.entries@.len() && self.entries@[i as int].0@ == id@
                    && self@.dom().contains(id@) && self@[id@] == self.entries@[i as int].1,
                None => !self@.dom().contains(id@),
            },
    {
        let mut i: usize = 0;
        while i < self.entries.len()
            invariant
                self.wf(),
                i <= self.entries@.len(),
                forall|k: int| 0 <= k < i ==> (#[trigger] self.entries@[k]).0@ != id@,
            decreases self.entries@.len() - i,
        {
            if same(self.entries[i].0.as_str(), id) {
                proof {
                    lemma_stored_at(self.entries@, i as int);
                }
                return Some(i);
            }
            i += 1;
        }
        proof {
            lemma_stored(self.entries@, id@);
        }
        None
    }

    /// Drops a session. One that is not loaded is none to drop.
    pub fn unload(&mut self, id: Option<&str>)
        requires
            old(self).wf(),
        ensures
            final(self).wf(),
            final(self)@ == old(self)@.remove(meant(id)),
    {
        let key: &str = id_or_default(id);
        match self.find(key) {
            Some(i) => {
                proof {
                    lemma_stored_without(self.entries@, i as int);
                }
                self.entries.remove(i);
            },
            None => {
                assert(self@ =~= self@.remove(meant(id)));
            },
        }
    }

    /// Stores a session under its id, in place of the one that was there, and tells the top
    /// of its design.
    pub fn store(&mut self, id: Option<&str>, session: Session) -> (r: String)
        requires
            old(self).wf(),
            session.wf(),
        ensures
            final(self).wf(),
            final(self)@ == old(self)@.insert(meant(id), session),
            r@ == session.design.doc.design@,
    {
        let top: String = session.design_top();
        self.unload(id);
        let ghost before = self.entries@;
        proof {
            lemma_stored(before, meant(id));
        }
        let key: String = owned(id_or_default(id));
        self.entries.push((key, session));
        proof {
            assert(self.entries@.drop_last() =~= before);
            assert(self@ =~= old(self)@.insert(meant(id), session));
        }
        top
    }

    /// The session under an id.
    pub fn session(&self, id: Option<&str>) -> (r: Result<&Session, String>)
        requires
            self.wf(),
        ensures
            match r {
                Ok(s) => self@.dom().contains(meant(id)) && *s == self@[meant(id)] && s.wf(),
                Err(e) => !self@.dom().contains(meant(id)) && e@ == not_loaded(id),
            },
    {
        let key: &str = id_or_default(id);
        match self.find(key) {
            Some(i) => Ok(&self.entries[i].1),
            None => Err(Phrase::new("no design loaded for session '").add(key).add("'").done()),
        }
    }

    /// The schematic of a scope, at the process level where no level is given.
    pub fn scope_graph(&self, id: Option<&str>, scope: &str, projection: Option<Projection>) -> (r:
        Result<SchematicGraph, String>)
        requires
            self.wf(),
        ensures
            !self@.dom().contains(meant(id)) ==> r is Err && r->Err_0@ == not_loaded(id),
            self@.dom().contains(meant(id)) ==> match r {
                Ok(g) => scope_view(self@[meant(id)].design.doc, scope@, level(projection)) == Some(
                    g@,
                ),
                Err(e) => scope_view(
                    self@[meant(id)].design.doc,
                    scope@,
                    level(projection),
                ) is None && e@ == "scope not found: "@ + scope@,
            },
    {
        let s: &Session = match self.session(id) {
            Ok(s) => s,
            Err(e) => return Err(e),
        };
        match s.scope_graph_with(scope, level_or_default(projection)) {
            Some(g) => Ok(g),
            None => Err(Phrase::new("scope not found: ").add(scope).done()),
        }
    }

    /// The schematic of what is inside a node, at the process level where no level is given.
    pub fn expand_node(&self, id: Option<&str>, node: NodeId, projection: Option<Projection>) -> (r:
        Result<SchematicGraph, String>)
        requires
            self.wf(),
        ensures
            !self@.dom().contains(meant(id)) ==> r is Err && r->Err_0@ == not_loaded(id),
            self@.dom().contains(meant(id)) ==> ({
                let d = self@[meant(id)].design.doc;
                let inside = match node_at(d, node) {
                    Some(n) => scope_view(d, n.path@, level(projection)),
                    None => None,
                };
                match r {
                    Ok(g) => inside == Some(g@),
                    Err(e) => inside is None && e@ == "not expandable"@,
                }
            }),
    {
        let s: &Session = match self.session(id) {
            Ok(s) => s,
            Err(e) => return Err(e),
        };
        match s.expand_with(node, level_or_default(projection)) {
            Some(g) => Ok(g),
            None => Err(owned("not expandable")),
        }
    }

    /// The tree of scopes below a path, to a depth.
    pub fn hierarchy_tree(&self, id: Option<&str>, scope: &str, depth: usize) -> (r: Result<
        TreeNode,
        String,
    >)
        requires
            self.wf(),
        ensures
            !self@.dom().contains(meant(id)) ==> r is Err && r->Err_0@ == not_loaded(id),
            self@.dom().contains(meant(id)) ==> match scope_at(
                self@[meant(id)].design.doc,
                scope@,
            ) {
                Some(at) => r is Ok && is_tree(
                    r->Ok_0,
                    self@[meant(id)].design.doc,
                    at,
                    depth as nat,
                ),
                None => r is Err && r->Err_0@ == "scope not found: "@ + scope@,
            },
    {
        let s: &Session = match self.session(id) {
            Ok(s) => s,
            Err(e) => return Err(e),
        };
        match s.hierarchy_tree(scope, depth) {
            Some(t) => Ok(t),
            None => Err(Phrase::new("scope not found: ").add(scope).done()),
        }
    }

    /// The paths of the signals in the scopes at a path.
    pub fn scope_signals(&self, id: Option<&str>, scope: &str) -> (r: Result<Vec<String>, String>)
        requires
            self.wf(),
        ensures
            !self@.dom().contains(meant(id)) ==> r is Err && r->Err_0@ == not_loaded(id),
            self@.dom().contains(meant(id)) ==> ({
                let d = self@[meant(id)].design.doc;
                let scopes = scopes_at(d, scope@);
                match r {
                    Ok(v) => scopes.len() > 0 && all_chars(v@) == signals_in(
                        d,
                        scopes,
                        scopes.len(),
                    ),
                    Err(e) => scopes.len() == 0 && e@ == "scope not found: "@ + scope@,
                }
            }),
    {
        let s: &Session = match self.session(id) {
            Ok(s) => s,
            Err(e) => return Err(e),
        };
        match s.scope_signals(scope) {
            Some(v) => Ok(v),
            None => Err(Phrase::new("scope not found: ").add(scope).done()),
        }
    }

    /// The cone of a net, in a direction by its name.
    pub fn cone(&self, id: Option<&str>, net: NodeId, dir: &str, depth: usize) -> (r: Result<
        SchematicGraph,
        String,
    >)
        requires
            self.wf(),
        ensures
            match r {
                Ok(g) => self@.dom().contains(meant(id)) && g@ == cone_view(
                    self@[meant(id)].design.doc,
                    net,
                    dir_named(dir@),
                    depth as nat,
                ),
                Err(e) => !self@.dom().contains(meant(id)) && e@ == not_loaded(id),
            },
    {
        match self.session(id) {
            Ok(s) => Ok(s.cone(net, dir, depth)),
            Err(e) => Err(e),
        }
    }
}

/// The level that is meant.
pub open spec fn level(p: Option<Projection>) -> Projection {
    match p {
        Some(p) => p,
        None => Projection::ProcessLevel,
    }
}

fn level_or_default(p: Option<Projection>) -> (r: Projection)
    ensures
        r == level(p),
{
    match p {
        Some(p) => p,
        None => Projection::ProcessLevel,
    }
}

// --- Laws ---------------------------------------------------------------------

/// What is stored is found again, other windows keep their sessions, dropping a session
/// twice is dropping it once, and an id that is left out is the main window's.
pub proof fn law_windows_own_their_sessions(
    all: Map<Seq<char>, Session>,
    id: Option<&str>,
    other: Option<&str>,
    session: Session,
)
    requires
        meant(id) != meant(other),
    ensures
        all.insert(meant(id), session)[meant(id)] == session,
        all.insert(meant(id), session).dom().contains(meant(other)) == all.dom().contains(
            meant(other),
        ),
        all.insert(meant(id), session)[meant(other)] == all[meant(other)],
        !all.remove(meant(id)).dom().contains(meant(id)),
        all.remove(meant(id)).dom().contains(meant(other)) == all.dom().contains(meant(other)),
        all.remove(meant(id)).remove(meant(id)) == all.remove(meant(id)),
        meant(None) == meant(Some(DEFAULT_SESSION)),
{
    assert(all.remove(meant(id)).remove(meant(id)) =~= all.remove(meant(id)));
}

} // verus!
