//! The client manager: at most one live protocol client per language.
//!
//! A client enters the table only once its handshake has completed, so
//! a spawn or initialize failure leaves no entry behind.  Starting a
//! language that is already running tears the old client down first —
//! its shutdown plan is produced before the fresh client exists — and
//! tearing everything down attempts every entry.

use vstd::prelude::*;

use crate::client::{res_views, LifecycleState, LspClient, LspError, ShutdownPlan};
use crate::messages::OutcomeVal;
use crate::servers::{Language, LanguageServer};

verus! {

/// The client stored for a language; a later entry would win, but the
/// table never holds two entries for one language.
pub open spec fn lang_lookup<T>(s: Seq<(Language, LspClient<T>)>, l: Language) -> Option<
    LspClient<T>,
>
    decreases s.len(),
{
    if s.len() == 0 {
        None
    } else if s.last().0 == l {
        Some(s.last().1)
    } else {
        lang_lookup(s.drop_last(), l)
    }
}

proof fn lemma_lang_lookup_none<T>(s: Seq<(Language, LspClient<T>)>, l: Language)
    requires
        forall|k: int| 0 <= k < s.len() ==> (#[trigger] s[k]).0 != l,
    ensures
        lang_lookup(s, l) is None,
    decreases s.len(),
{
    if s.len() > 0 {
        lemma_lang_lookup_none(s.drop_last(), l);
    }
}

proof fn lemma_lang_lookup_at<T>(s: Seq<(Language, LspClient<T>)>, k: int)
    requires
        0 <= k < s.len(),
        forall|i: int, j: int| 0 <= i < j < s.len() ==> (#[trigger] s[i]).0 != (#[trigger] s[j]).0,
    ensures
        lang_lookup(s, s[k].0) == Some(s[k].1),
    decreases s.len(),
{
    if k == s.len() - 1 {
    } else {
        assert(s[k].0 != s.last().0);
        lemma_lang_lookup_at(s.drop_last(), k);
        assert(s.drop_last()[k] == s[k]);
    }
}

proof fn lemma_lang_lookup_remove<T>(s: Seq<(Language, LspClient<T>)>, k: int, l: Language)
    requires
        0 <= k < s.len(),
        s[k].0 != l,
    ensures
        lang_lookup(s.remove(k), l) == lang_lookup(s, l),
    decreases s.len(),
{
    if k == s.len() - 1 {
        assert(s.remove(k) =~= s.drop_last());
    } else {
        lemma_lang_lookup_remove(s.drop_last(), k, l);
        assert(s.remove(k).drop_last() =~= s.drop_last().remove(k));
        assert(s.remove(k).last() == s.last());
    }
}

/// Owns the live protocol clients, one per language.
pub struct LspManager<T> {
    clients: Vec<(Language, LspClient<T>)>,
    root: String,
}

impl<T> LspManager<T> {
    /// The stored entries, in registration order.
    pub closed spec fn entries_spec(&self) -> Seq<(Language, LspClient<T>)> {
        self.clients@
    }

    /// The workspace root clients are started in.
    pub closed spec fn root_spec(&self) -> Seq<char> {
        self.root@
    }

    /// The workspace root clients are started in.
    pub fn root_path(&self) -> (r: &String)
        ensures
            r@ == self.root_spec(),
    {
        &self.root
    }

    /// The live client for a language, if one is registered.
    pub open spec fn client_for(&self, l: Language) -> Option<LspClient<T>> {
        lang_lookup(self.entries_spec(), l)
    }

    /// No language appears twice, and every stored client is an
    /// initialized, well-formed client for its language.
    pub closed spec fn wf(&self) -> bool {
        &&& forall|i: int, j: int|
            0 <= i < j < self.clients@.len() ==> (#[trigger] self.clients@[i]).0 != (
            #[trigger] self.clients@[j]).0
        &&& forall|k: int|
            0 <= k < self.clients@.len() ==> {
                let c = (#[trigger] self.clients@[k]).1;
                &&& c.wf()
                &&& c.state_spec() == LifecycleState::Initialized
                &&& c.config_spec().language == self.clients@[k].0
            }
    }

    /// A manager with no clients.
    pub fn new(root_path: String) -> (r: LspManager<T>)
        ensures
            r.wf(),
            r.entries_spec() == Seq::<(Language, LspClient<T>)>::empty(),
            r.root_spec() == root_path@,
    {
        LspManager { clients: Vec::new(), root: root_path }
    }

    fn find_index(&self, language: &Language) -> (r: Option<usize>)
        requires
            self.wf(),
        ensures
            match r {
                Some(k) => k < self.entries_spec().len() && self.entries_spec()[k as int].0
                    == *language && self.client_for(*language) == Some(
                    self.entries_spec()[k as int].1,
                ),
                None => self.client_for(*language) is None,
            },
    {
        let mut k: usize = 0;
        while k < self.clients.len()
            invariant
                0 <= k <= self.clients@.len(),
                self.wf(),
                forall|j: int| 0 <= j < k ==> (#[trigger] self.clients@[j]).0 != *language,
            decreases self.clients@.len() - k,
        {
            if self.clients[k].0 == *language {
                proof {
                    lemma_lang_lookup_at(self.clients@, k as int);
                }
                return Some(k);
            }
            k = k + 1;
        }
        proof {
            lemma_lang_lookup_none(self.clients@, *language);
        }
        None
    }

    /// Whether a client is live for the language.
    pub fn is_running(&self, language: &Language) -> (r: bool)
        requires
            self.wf(),
        ensures
            r == (self.client_for(*language) is Some),
    {
        match self.find_index(language) {
            Some(_) => true,
            None => false,
        }
    }

    /// The live client for the language, if any.
    pub fn get_client(&self, language: &Language) -> (r: Option<&LspClient<T>>)
        requires
            self.wf(),
        ensures
            match r {
                Some(c) => self.client_for(*language) == Some(*c),
                None => self.client_for(*language) is None,
            },
    {
        match self.find_index(language) {
            Some(k) => Some(&self.clients[k].1),
            None => None,
        }
    }

    /// Removes and hands out the live client for the language, so the
    /// embedder can drive requests on it and register it back.
    pub fn take_client(&mut self, language: &Language) -> (r: Option<LspClient<T>>)
        requires
            old(self).wf(),
        ensures
            final(self).wf(),
            final(self).root_spec() == old(self).root_spec(),
            final(self).client_for(*language) is None,
            forall|l2: Language|
                l2 != *language ==> #[trigger] final(self).client_for(l2) == old(self).client_for(
                    l2,
                ),
            match r {
                Some(c) => old(self).client_for(*language) == Some(c) && c.wf() && c.state_spec()
                    == LifecycleState::Initialized,
                None => old(self).client_for(*language) is None && *final(self) == *old(self),
            },
    {
        match self.find_index(language) {
            Some(k) => {
                let ghost s0 = self.clients@;
                let entry = self.clients.remove(k);
                proof {
                    assert forall|l2: Language|
                        l2 != *language implies #[trigger] lang_lookup(self.clients@, l2)
                        == lang_lookup(s0, l2) by {
                        lemma_lang_lookup_remove(s0, k as int, l2);
                    }
                    assert forall|i: int|
                        0 <= i < self.clients@.len() implies (#[trigger] self.clients@[i]).0
                        != *language by {
                        if i < k as int {
                            assert(self.clients@[i] == s0[i]);
                        } else {
                            assert(self.clients@[i] == s0[i + 1]);
                        }
                    }
                    lemma_lang_lookup_none(self.clients@, *language);
                }
                Some(entry.1)
            },
            None => None,
        }
    }

    /// Registers a client that has completed its handshake; the
    /// language must not be running.
    pub fn register_client(&mut self, language: Language, client: LspClient<T>)
        requires
            old(self).wf(),
            old(self).client_for(language) is None,
            client.wf(),
            client.state_spec() == LifecycleState::Initialized,
            client.config_spec().language == language,
        ensures
            final(self).wf(),
            final(self).root_spec() == old(self).root_spec(),
            final(self).client_for(language) == Some(client),
            forall|l2: Language|
                l2 != language ==> #[trigger] final(self).client_for(l2) == old(self).client_for(
                    l2,
                ),
    {
        let ghost s0 = self.clients@;
        proof {
            if exists|k: int| 0 <= k < s0.len() && (#[trigger] s0[k]).0 == language {
                let k = choose|k: int| 0 <= k < s0.len() && (#[trigger] s0[k]).0 == language;
                lemma_lang_lookup_at(s0, k);
                assert(false);
            }
        }
        self.clients.push((language, client));
        proof {
            assert(self.clients@.last() == (language, client));
            assert(lang_lookup(self.clients@, language) == Some(client)) by {
                assert(self.clients@.last().0 == language);
            }
            assert forall|l2: Language|
                l2 != language implies #[trigger] lang_lookup(self.clients@, l2) == lang_lookup(
                s0,
                l2,
            ) by {
                assert(self.clients@.drop_last() =~= s0);
            }
            assert forall|i: int, j: int|
                0 <= i < j < self.clients@.len() implies (#[trigger] self.clients@[i]).0 != (
                #[trigger] self.clients@[j]).0 by {
                if j == self.clients@.len() - 1 {
                    assert(self.clients@[i] == s0[i]);
                }
            }
        }
    }

    /// Prepares a start: refuses an absent executable, and when the
    /// language is already running tears the old client down first.
    /// The fresh, unstarted client is handed back for the embedder to
    /// spawn the process and drive the handshake; only
    /// [`Self::register_client`] puts it in the table, so a failed
    /// start leaves no entry.
    pub fn start_server(&mut self, language: Language, installed: bool) -> (r: Result<
        (LspClient<T>, Option<ShutdownPlan<T>>),
        LspError,
    >)
        requires
            old(self).wf(),
        ensures
            final(self).wf(),
            final(self).root_spec() == old(self).root_spec(),
            !installed ==> (r matches Err(LspError::NotInstalled) && *final(self) == *old(self)),
            installed ==> (r matches Ok(p) && {
                &&& p.0.wf()
                &&& p.0.state_spec() == LifecycleState::Unstarted
                &&& p.0.pending_entries() == Seq::<(u64, T)>::empty()
                &&& p.0.next_id_spec() == 1
                &&& p.0.config_spec().wf()
                &&& p.0.config_spec().language == language
                &&& final(self).client_for(language) is None
                &&& forall|l2: Language|
                    l2 != language ==> #[trigger] final(self).client_for(l2) == old(
                        self,
                    ).client_for(l2)
                &&& match old(self).client_for(language) {
                    Some(c) => p.1 matches Some(plan) && {
                        &&& plan.frames is Some
                        &&& plan.cancelled@.len() == c.pending_entries().len()
                        &&& forall|k: int|
                            0 <= k < plan.cancelled@.len() ==> res_views(plan.cancelled@)[k] == (
                                c.pending_entries()[k].0,
                                c.pending_entries()[k].1,
                                OutcomeVal::Cancelled("client replaced"@),
                            )
                    },
                    None => p.1 is None,
                }
            }),
    {
        if !installed {
            return Err(LspError::NotInstalled);
        }
        let old_plan: Option<ShutdownPlan<T>> = match self.take_client(&language) {
            Some(mut c) => Some(c.shutdown("client replaced")),
            None => None,
        };
        let config = LanguageServer::for_language(language);
        let fresh: LspClient<T> = LspClient::new(config);
        Ok((fresh, old_plan))
    }

    /// Removes and tears down the client for one language; a language
    /// that is not running is a no-op.
    pub fn shutdown_server(&mut self, language: &Language) -> (r: Option<ShutdownPlan<T>>)
        requires
            old(self).wf(),
        ensures
            final(self).wf(),
            final(self).root_spec() == old(self).root_spec(),
            final(self).client_for(*language) is None,
            forall|l2: Language|
                l2 != *language ==> #[trigger] final(self).client_for(l2) == old(self).client_for(
                    l2,
                ),
            match old(self).client_for(*language) {
                Some(c) => r matches Some(plan) && {
                    &&& plan.frames is Some
                    &&& plan.cancelled@.len() == c.pending_entries().len()
                    &&& forall|k: int|
                        0 <= k < plan.cancelled@.len() ==> res_views(plan.cancelled@)[k] == (
                            c.pending_entries()[k].0,
                            c.pending_entries()[k].1,
                            OutcomeVal::Cancelled("client shut down"@),
                        )
                },
                None => r is None && *final(self) == *old(self),
            },
    {
        match self.take_client(language) {
            Some(mut c) => Some(c.shutdown("client shut down")),
            None => None,
        }
    }

    /// Tears every client down; every entry is attempted and the table
    /// is empty afterwards.
    pub fn shutdown_all(&mut self) -> (r: Vec<(Language, ShutdownPlan<T>)>)
        requires
            old(self).wf(),
        ensures
            final(self).wf(),
            final(self).root_spec() == old(self).root_spec(),
            final(self).entries_spec() == Seq::<(Language, LspClient<T>)>::empty(),
            r@.len() == old(self).entries_spec().len(),
            forall|k: int|
                0 <= k < r@.len() ==> {
                    let entry = #[trigger] old(self).entries_spec()[k];
                    &&& r@[k].0 == entry.0
                    &&& r@[k].1.frames is Some
                    &&& r@[k].1.cancelled@.len() == entry.1.pending_entries().len()
                    &&& forall|q: int|
                        0 <= q < r@[k].1.cancelled@.len() ==> res_views(r@[k].1.cancelled@)[q] == (
                            entry.1.pending_entries()[q].0,
                            entry.1.pending_entries()[q].1,
                            OutcomeVal::Cancelled("client shut down"@),
                        )
                },
    {
        let ghost s0 = self.clients@;
        let mut out: Vec<(Language, ShutdownPlan<T>)> = Vec::new();
        while self.clients.len() > 0
            invariant
                out@.len() + self.clients@.len() == s0.len(),
                self.clients@ =~= s0.skip(out@.len() as int),
                self.wf(),
                self.root == old(self).root,
                forall|i: int, j: int| 0 <= i < j < s0.len() ==> (#[trigger] s0[i]).0 != (#[trigger] s0[j]).0,
                forall|k: int|
                    0 <= k < s0.len() ==> {
                        let c = (#[trigger] s0[k]).1;
                        &&& c.wf()
                        &&& c.state_spec() == LifecycleState::Initialized
                    },
                forall|k: int|
                    0 <= k < out@.len() ==> {
                        let entry = #[trigger] s0[k];
                        &&& out@[k].0 == entry.0
                        &&& out@[k].1.frames is Some
                        &&& out@[k].1.cancelled@.len() == entry.1.pending_entries().len()
                        &&& forall|q: int|
                            0 <= q < out@[k].1.cancelled@.len() ==> res_views(
                                out@[k].1.cancelled@,
                            )[q] == (
                                entry.1.pending_entries()[q].0,
                                entry.1.pending_entries()[q].1,
                                OutcomeVal::Cancelled("client shut down"@),
                            )
                    },
            decreases self.clients@.len(),
        {
            let ghost n = out@.len();
            let entry = self.clients.remove(0);
            let (language, mut c) = entry;
            proof {
                assert((language, c) == s0[n as int]);
            }
            let plan = c.shutdown("client shut down");
            out.push((language, plan));
            proof {
                assert(self.clients@ =~= s0.skip(out@.len() as int));
                assert forall|i: int, j: int|
                    0 <= i < j < self.clients@.len() implies (#[trigger] self.clients@[i]).0 != (
                    #[trigger] self.clients@[j]).0 by {
                    assert(self.clients@[i] == s0[i + n + 1]);
                    assert(self.clients@[j] == s0[j + n + 1]);
                }
            }
        }
        proof {
            assert(self.clients@ =~= Seq::<(Language, LspClient<T>)>::empty());
        }
        out
    }
}

} // verus!
