//! The queue engine's operations.
//!
//! Each user-facing action resolves, through the registry, which profiles
//! it applies to, then works on the committed set of the profile's queue
//! store: showing numbered summaries, planning a delivery over an optional
//! index subset, dropping, or reviving into the draft area. Every index a
//! caller hands in is validated against the committed set it addresses;
//! an out-of-range index fails the whole call before anything moves.

use vstd::prelude::*;
use crate::errors::EngineError;
use crate::config::Config;
use crate::config::ProfileConfig;
use crate::config::opt_name_view;
use crate::headers::summarize;
use crate::headers::summarizable;
use crate::headers::summary_of;
use crate::headers::from_text_of;
use crate::headers::subject_of;
use crate::store::Store;
use crate::store::MsgView;
use crate::store::copy_bytes;
use crate::store::ids_of;
use crate::store::lemma_sorted_distinct;
use crate::store::lemma_insert_index;

verus! {

/// The parameters of one SMTP session: the profile's endpoint and
/// credentials source, wrapper TLS honouring the profile's certificate
/// flag, a single-connection pool and a fixed 30 second timeout.
#[derive(Debug)]
pub struct SmtpParams {
    pub host: String,
    pub port: u16,
    pub user: String,
    pub pass_cmd: String,
    pub accept_invalid_cert: bool,
    pub timeout_secs: u64,
    pub pool_max_size: u32,
}

/// The session parameters prescribed for a profile.
pub open spec fn smtp_params_match(p: SmtpParams, v: crate::config::ProfileView) -> bool {
    &&& p.host@ == v.smtp_host
    &&& p.port == v.smtp_port
    &&& p.user@ == v.smtp_user
    &&& p.pass_cmd@ == v.smtp_pass_cmd
    &&& p.accept_invalid_cert == v.smtp_accept_invalid_cert
    &&& p.timeout_secs == 30
    &&& p.pool_max_size == 1
}

/// Derives the SMTP session parameters for a profile: its endpoint,
/// username and password command, the certificate flag, one pooled
/// connection and a 30 second timeout.
pub fn smtp_params(c: &ProfileConfig) -> (r: SmtpParams)
    ensures
        smtp_params_match(r, c@),
{
    SmtpParams {
        host: c.smtp_host.clone(),
        port: c.smtp_port,
        user: c.smtp_user.clone(),
        pass_cmd: c.smtp_pass_cmd.clone(),
        accept_invalid_cert: c.smtp_accept_invalid_cert,
        timeout_secs: 30,
        pool_max_size: 1,
    }
}

/// One profile's delivery work order: where its queue and sent stores
/// live, the session to open, and the caller's optional index subset.
#[derive(Debug)]
pub struct SendJob {
    pub profile: String,
    pub queue_dir: String,
    pub sent_dir: String,
    pub smtp: SmtpParams,
    pub indices: Option<Vec<u32>>,
}

/// Copies an index list.
fn copy_u32s(v: &Vec<u32>) -> (r: Vec<u32>)
    ensures
        r@ == v@,
{
    let mut r: Vec<u32> = Vec::new();
    let mut i: usize = 0;
    while i < v.len()
        invariant
            0 <= i <= v@.len(),
            r@ == v@.subrange(0, i as int),
        decreases v@.len() - i,
    {
        r.push(v[i]);
        proof {
            assert(r@ =~= v@.subrange(0, i + 1 as int));
        }
        i = i + 1;
    }
    proof {
        assert(r@ =~= v@);
    }
    r
}

/// Resolves which profiles a send applies to and bundles each one's work
/// order: queue and sent directories, session parameters, and the index
/// subset to deliver.
pub fn send(config: &Config, profile: Option<&str>, idx: &Option<Vec<u32>>) -> (r: Result<
    Vec<SendJob>,
    EngineError,
>)
    requires
        config.wf(),
    ensures
        r matches Ok(jobs) ==> config.selection(opt_name_view(profile)) matches Some(s)
            && jobs@.len() == s.len() && forall|i: int|
            0 <= i < s.len() ==> {
                &&& (#[trigger] jobs@[i]).profile@ == s[i].0
                &&& jobs@[i].queue_dir@ == s[i].1.queue_dir
                &&& jobs@[i].sent_dir@ == s[i].1.sent_dir
                &&& smtp_params_match(jobs@[i].smtp, s[i].1)
                &&& jobs@[i].indices.deep_view() == idx.deep_view()
            },
        r is Err <==> config.selection(opt_name_view(profile)) is None,
        r is Err ==> r == Err::<Vec<SendJob>, EngineError>(EngineError::ConfigError),
{
    let sel = match config.map(profile) {
        Ok(sel) => sel,
        Err(e) => {
            return Err(e);
        },
    };
    let ghost s = config.selection(opt_name_view(profile))->Some_0;
    let mut jobs: Vec<SendJob> = Vec::new();
    let mut i: usize = 0;
    while i < sel.len()
        invariant
            crate::config::entry_views(sel@) == s,
            0 <= i <= sel@.len(),
            jobs@.len() == i,
            forall|m: int|
                0 <= m < i ==> {
                    &&& (#[trigger] jobs@[m]).profile@ == s[m].0
                    &&& jobs@[m].queue_dir@ == s[m].1.queue_dir
                    &&& jobs@[m].sent_dir@ == s[m].1.sent_dir
                    &&& smtp_params_match(jobs@[m].smtp, s[m].1)
                    &&& jobs@[m].indices.deep_view() == idx.deep_view()
                },
        decreases sel@.len() - i,
    {
        let entry = &sel[i];
        let indices = match idx {
            Some(v) => Some(copy_u32s(v)),
            None => None,
        };
        proof {
            match &indices {
                Some(v) => {
                    assert(v.deep_view() =~= idx.deep_view()->Some_0);
                },
                None => {},
            }
        }
        let job = SendJob {
            profile: entry.0.clone(),
            queue_dir: entry.1.queue_dir.clone(),
            sent_dir: entry.1.sent_dir.clone(),
            smtp: smtp_params(&entry.1),
            indices,
        };
        proof {
            assert(s[i as int] == crate::config::entry_views(sel@)[i as int]);
        }
        jobs.push(job);
        i = i + 1;
    }
    Ok(jobs)
}

/// Resolves which profiles a show applies to: each selected profile's
/// name with its queue directory, in registry order.
pub fn show(config: &Config, profile: Option<&str>) -> (r: Result<
    Vec<(String, String)>,
    EngineError,
>)
    requires
        config.wf(),
    ensures
        r matches Ok(v) ==> config.selection(opt_name_view(profile)) matches Some(s) && v@.len()
            == s.len() && forall|i: int|
            0 <= i < s.len() ==> (#[trigger] v@[i]).0@ == s[i].0 && v@[i].1@ == s[i].1.queue_dir,
        r is Err <==> config.selection(opt_name_view(profile)) is None,
        r is Err ==> r == Err::<Vec<(String, String)>, EngineError>(EngineError::ConfigError),
{
    let sel = match config.map(profile) {
        Ok(sel) => sel,
        Err(e) => {
            return Err(e);
        },
    };
    let ghost s = config.selection(opt_name_view(profile))->Some_0;
    let mut v: Vec<(String, String)> = Vec::new();
    let mut i: usize = 0;
    while i < sel.len()
        invariant
            crate::config::entry_views(sel@) == s,
            0 <= i <= sel@.len(),
            v@.len() == i,
            forall|m: int|
                0 <= m < i ==> (#[trigger] v@[m]).0@ == s[m].0 && v@[m].1@ == s[m].1.queue_dir,
        decreases sel@.len() - i,
    {
        let entry = &sel[i];
        proof {
            assert(s[i as int] == crate::config::entry_views(sel@)[i as int]);
        }
        v.push((entry.0.clone(), entry.1.queue_dir.clone()));
        i = i + 1;
    }
    Ok(v)
}

/// Resolves which profiles a drop-all applies to: each selected profile's
/// name with the queue directory to purge.
pub fn drop_all(config: &Config, profile: Option<&str>) -> (r: Result<
    Vec<(String, String)>,
    EngineError,
>)
    requires
        config.wf(),
    ensures
        r matches Ok(v) ==> config.selection(opt_name_view(profile)) matches Some(s) && v@.len()
            == s.len() && forall|i: int|
            0 <= i < s.len() ==> (#[trigger] v@[i]).0@ == s[i].0 && v@[i].1@ == s[i].1.queue_dir,
        r is Err <==> config.selection(opt_name_view(profile)) is None,
        r is Err ==> r == Err::<Vec<(String, String)>, EngineError>(EngineError::ConfigError),
{
    show(config, profile)
}

/// Resolves which profiles a revive-all applies to: each selected
/// profile's name with its queue directory and the revive directory the
/// drafts go to.
pub fn revive_all(config: &Config, profile: Option<&str>) -> (r: Result<
    Vec<(String, String, String)>,
    EngineError,
>)
    requires
        config.wf(),
    ensures
        r matches Ok(v) ==> config.selection(opt_name_view(profile)) matches Some(s) && v@.len()
            == s.len() && forall|i: int|
            0 <= i < s.len() ==> (#[trigger] v@[i]).0@ == s[i].0 && v@[i].1@ == s[i].1.queue_dir
                && v@[i].2@ == s[i].1.revive_dir,
        r is Err <==> config.selection(opt_name_view(profile)) is None,
        r is Err ==> r == Err::<Vec<(String, String, String)>, EngineError>(
            EngineError::ConfigError,
        ),
{
    let sel = match config.map(profile) {
        Ok(sel) => sel,
        Err(e) => {
            return Err(e);
        },
    };
    let ghost s = config.selection(opt_name_view(profile))->Some_0;
    let mut v: Vec<(String, String, String)> = Vec::new();
    let mut i: usize = 0;
    while i < sel.len()
        invariant
            crate::config::entry_views(sel@) == s,
            0 <= i <= sel@.len(),
            v@.len() == i,
            forall|m: int|
                0 <= m < i ==> (#[trigger] v@[m]).0@ == s[m].0 && v@[m].1@ == s[m].1.queue_dir
                    && v@[m].2@ == s[m].1.revive_dir,
        decreases sel@.len() - i,
    {
        let entry = &sel[i];
        proof {
            assert(s[i as int] == crate::config::entry_views(sel@)[i as int]);
        }
        v.push((entry.0.clone(), entry.1.queue_dir.clone(), entry.1.revive_dir.clone()));
        i = i + 1;
    }
    Ok(v)
}

/// Whether the index list holds the position `i`.
pub open spec fn sel_contains(sel: Seq<u32>, i: int) -> bool {
    exists|m: int| 0 <= m < sel.len() && ((#[trigger] sel[m]) as int) == i
}

/// The identifiers at the selected positions of a committed set, in index
/// order.
pub open spec fn selected_ids(ids: Seq<Seq<u8>>, sel: Seq<u32>) -> Seq<Seq<u8>>
    decreases ids.len(),
{
    if ids.len() == 0 {
        Seq::empty()
    } else {
        let prefix = selected_ids(ids.drop_last(), sel);
        if sel_contains(sel, ids.len() - 1) {
            prefix.push(ids.last())
        } else {
            prefix
        }
    }
}

/// Law: over an empty committed set any selection plans nothing, so an
/// empty queue never needs a session.
pub proof fn lemma_empty_queue_plans_nothing(sel: Seq<u32>)
    ensures
        selected_ids(Seq::<Seq<u8>>::empty(), sel).len() == 0,
{
}

/// Whether an index list holds the position `i`.
fn contains_idx(sel: &Vec<u32>, i: usize) -> (r: bool)
    ensures
        r == sel_contains(sel@, i as int),
{
    let mut m: usize = 0;
    while m < sel.len()
        invariant
            0 <= m <= sel@.len(),
            forall|q: int| 0 <= q < m ==> ((#[trigger] sel@[q]) as int) != i as int,
        decreases sel@.len() - m,
    {
        if sel[m] as usize == i {
            return true;
        }
        m = m + 1;
    }
    false
}

/// Plans a delivery over a store: with no subset, every message in index
/// order; with a subset, exactly the selected positions, each validated
/// against the committed set first. Any out-of-range index fails the
/// whole call with no partial filtering.
#[verifier::loop_isolation(false)]
pub fn plan_send(store: &Store, sel: &Option<Vec<u32>>) -> (r: Result<Vec<Vec<u8>>, EngineError>)
    ensures
        sel is None ==> (r matches Ok(v) && v@.len() == store@.len() && forall|i: int|
            0 <= i < v@.len() ==> (#[trigger] v@[i]@) == store@[i].id),
        sel matches Some(s) ==> ((exists|m: int|
            0 <= m < s@.len() && ((#[trigger] s@[m]) as int) >= store@.len()) ==> r == Err::<
            Vec<Vec<u8>>,
            EngineError,
        >(EngineError::InvalidIndex)),
        sel matches Some(s) ==> ((forall|m: int|
            0 <= m < s@.len() ==> ((#[trigger] s@[m]) as int) < store@.len()) ==> (r matches Ok(v)
            && v.deep_view() == selected_ids(store.ids(), s@))),
{
    let ids = store.list();
    let s = match sel {
        None => {
            return Ok(ids);
        },
        Some(s) => s,
    };
    let mut m: usize = 0;
    while m < s.len()
        invariant
            0 <= m <= s@.len(),
            forall|q: int| 0 <= q < m ==> ((#[trigger] s@[q]) as int) < store@.len(),
            ids@.len() == store@.len(),
            forall|i: int| 0 <= i < ids@.len() ==> (#[trigger] ids@[i]@) == store@[i].id,
        decreases s@.len() - m,
    {
        if s[m] as usize >= ids.len() {
            return Err(EngineError::InvalidIndex);
        }
        m = m + 1;
    }
    let mut out: Vec<Vec<u8>> = Vec::new();
    let mut i: usize = 0;
    while i < ids.len()
        invariant
            0 <= i <= ids@.len(),
            ids@.len() == store@.len(),
            forall|q: int| 0 <= q < ids@.len() ==> (#[trigger] ids@[q]@) == store@[q].id,
            out.deep_view() == selected_ids(store.ids().take(i as int), s@),
        decreases ids@.len() - i,
    {
        proof {
            assert(store.ids().take(i as int + 1).drop_last() =~= store.ids().take(i as int));
            assert(store.ids().take(i as int + 1).last() == store.ids()[i as int]);
        }
        if contains_idx(s, i) {
            let id = copy_bytes(&ids[i]);
            let ghost idv = id@;
            out.push(id);
            proof {
                let l = out@.len() - 1;
                assert(out@[l].deep_view() =~= idv);
                assert(idv == store@[i as int].id);
                assert(out@[l].deep_view() == store.ids()[i as int]);
                assert(out.deep_view() =~= selected_ids(store.ids().take(i as int), s@).push(
                    store.ids()[i as int],
                ));
                assert(out.deep_view() =~= selected_ids(store.ids().take(i as int + 1), s@));
            }
        } else {
            proof {
                assert(out.deep_view() =~= selected_ids(store.ids().take(i as int + 1), s@));
            }
        }
        i = i + 1;
    }
    proof {
        assert(store.ids().take(store.ids().len() as int) =~= store.ids());
    }
    Ok(out)
}

/// Whether a delivery plan needs an SMTP session at all: an empty plan
/// succeeds trivially and no connection is opened.
pub fn needs_session(plan: &Vec<Vec<u8>>) -> (r: bool)
    ensures
        r == (plan@.len() != 0),
{
    plan.len() != 0
}

/// Renders the one-line summary of the message with the given identifier.
pub fn display_summary(store: &Store, id: &Vec<u8>) -> (r: Result<Vec<u8>, EngineError>)
    requires
        store.wf(),
    ensures
        !store.ids().contains(id@) ==> r == Err::<Vec<u8>, EngineError>(EngineError::StoreError),
        forall|i: int|
            0 <= i < store@.len() && (#[trigger] store@[i]).id == id@ ==> {
                &&& (r is Ok <==> summarizable(store@[i].data))
                &&& (!summarizable(store@[i].data) ==> r == Err::<Vec<u8>, EngineError>(
                    EngineError::ParseError,
                ))
                &&& (r matches Ok(line) ==> from_text_of(store@[i].data) matches Some(f)
                    && subject_of(store@[i].data) matches Some(su) && line@ == summary_of(f, su))
            },
{
    let i = match store.locate(id) {
        Some(i) => i,
        None => {
            proof {
                assert forall|m: int|
                    0 <= m < store@.len() implies (#[trigger] store@[m]).id != id@ by {
                    if store@[m].id == id@ {
                        assert(store.ids()[m] == id@);
                        assert(store.ids().contains(id@));
                    }
                }
            }
            return Err(EngineError::StoreError);
        },
    };
    proof {
        assert(store.ids()[i as int] == id@);
        assert(store.ids().contains(id@));
        lemma_sorted_distinct(store@);
        assert forall|m: int|
            0 <= m < store@.len() && (#[trigger] store@[m]).id == id@ implies m == i as int by {
            if m != i as int {
                assert(store@[m].id != store@[i as int].id);
            }
        }
    }
    let e = store.entry_at(i);
    summarize(&e.data)
}

/// A numbered summary line: the index in brackets, then the summary.
pub open spec fn dec_digits(n: int) -> Seq<u8>
    decreases n,
{
    if n < 10 {
        seq![(48 + n) as u8]
    } else {
        dec_digits(n / 10).push((48 + (n % 10)) as u8)
    }
}

/// The numeric index prefix of a summary line.
pub open spec fn index_prefix(i: int) -> Seq<u8> {
    seq![91u8] + dec_digits(i) + seq![93u8, 32u8]
}

/// Appends the decimal digits of `n`.
fn push_decimal(out: &mut Vec<u8>, n: usize)
    ensures
        final(out)@ == old(out)@ + dec_digits(n as int),
    decreases n,
{
    if n < 10 {
        out.push(48 + (n as u8));
        proof {
            assert(out@ =~= old(out)@ + dec_digits(n as int));
        }
    } else {
        push_decimal(out, n / 10);
        out.push(48 + ((n % 10) as u8));
        proof {
            assert(out@ =~= old(out)@ + dec_digits(n as int));
        }
    }
}

/// Renders the committed set as numbered summary lines, one per message
/// in index order. The first message that cannot be summarised aborts the
/// whole rendering.
#[verifier::loop_isolation(false)]
pub fn show_profile(store: &Store) -> (r: Result<Vec<Vec<u8>>, EngineError>)
    ensures
        r is Ok <==> (forall|i: int|
            0 <= i < store@.len() ==> summarizable(#[trigger] store@[i].data)),
        r matches Ok(lines) ==> lines@.len() == store@.len() && forall|i: int|
            0 <= i < store@.len() ==> (from_text_of(#[trigger] store@[i].data) matches Some(f)
                && subject_of(store@[i].data) matches Some(su) && lines@[i]@ == index_prefix(i)
                + summary_of(f, su)),
        r is Err ==> r == Err::<Vec<Vec<u8>>, EngineError>(EngineError::ParseError),
{
    let mut lines: Vec<Vec<u8>> = Vec::new();
    let mut i: usize = 0;
    let n = store.count();
    while i < n
        invariant
            n == store@.len(),
            0 <= i <= n,
            lines@.len() == i,
            forall|m: int| 0 <= m < i ==> summarizable(#[trigger] store@[m].data),
            forall|m: int|
                0 <= m < i ==> (from_text_of(#[trigger] store@[m].data) matches Some(f)
                    && subject_of(store@[m].data) matches Some(su) && lines@[m]@ == index_prefix(m)
                    + summary_of(f, su)),
        decreases n - i,
    {
        let e = store.entry_at(i);
        let mut summary = match summarize(&e.data) {
            Ok(s) => s,
            Err(err) => {
                proof {
                    assert(!summarizable(store@[i as int].data));
                }
                return Err(err);
            },
        };
        let ghost sv = summary@;
        let mut line: Vec<u8> = Vec::new();
        line.push(91u8);
        push_decimal(&mut line, i);
        line.push(93u8);
        line.push(32u8);
        line.append(&mut summary);
        proof {
            assert(line@ =~= index_prefix(i as int) + sv);
        }
        lines.push(line);
        i = i + 1;
    }
    Ok(lines)
}

/// Drops the message at one index of the committed set, returning its
/// identifier; an out-of-range index fails and removes nothing.
pub fn drop_one(store: &mut Store, idx: usize) -> (r: Result<Vec<u8>, EngineError>)
    requires
        old(store).wf(),
    ensures
        final(store).wf(),
        idx < old(store)@.len() ==> (r matches Ok(id) && id@ == old(store)@[idx as int].id
            && final(store)@ == old(store)@.remove(idx as int)),
        idx >= old(store)@.len() ==> r == Err::<Vec<u8>, EngineError>(EngineError::InvalidIndex)
            && final(store)@ == old(store)@,
{
    if idx >= store.count() {
        return Err(EngineError::InvalidIndex);
    }
    let e = store.remove_at(idx);
    Ok(e.id)
}

/// Drops every message of the committed set, returning the dropped
/// identifiers in index order.
#[verifier::loop_isolation(false)]
pub fn drop_all_one_profile(store: &mut Store) -> (r: Vec<Vec<u8>>)
    requires
        old(store).wf(),
    ensures
        final(store).wf(),
        final(store)@.len() == 0,
        r@.len() == old(store)@.len(),
        forall|i: int| 0 <= i < r@.len() ==> (#[trigger] r@[i]@) == old(store)@[i].id,
{
    let ids = store.list();
    let ghost orig = store@;
    let ghost mut dropped: int = 0;
    while store.count() > 0
        invariant
            store.wf(),
            0 <= dropped <= orig.len(),
            store@ =~= orig.skip(dropped),
        decreases store@.len(),
    {
        let _removed = store.remove_at(0);
        proof {
            assert(orig.skip(dropped).remove(0) =~= orig.skip(dropped + 1));
            dropped = dropped + 1;
        }
    }
    proof {
        assert(store@.len() == 0);
    }
    ids
}

/// Revives the message at one index: moves it out of the queue into the
/// revive store, where it commits as a draft under an identifier of that
/// store's own; the queue copy is given up only for that commit. An
/// out-of-range index fails and moves nothing.
pub fn revive_one(queue: &mut Store, revive: &mut Store, idx: usize) -> (r: Result<
    Vec<u8>,
    EngineError,
>)
    requires
        old(queue).wf(),
        old(revive).wf(),
    ensures
        final(queue).wf(),
        final(revive).wf(),
        idx >= old(queue)@.len() ==> r == Err::<Vec<u8>, EngineError>(EngineError::InvalidIndex)
            && final(queue)@ == old(queue)@ && final(revive)@ == old(revive)@,
        idx < old(queue)@.len() ==> (r matches Ok(id) && id@ == old(queue)@[idx as int].id
            && final(queue)@ == old(queue)@.remove(idx as int) && exists|k: int, nid: Seq<u8>|
            0 <= k <= old(revive)@.len() && !ids_of(old(revive)@).contains(nid) && final(revive)@
                == old(revive)@.insert(
                k,
                (MsgView { id: nid, data: old(queue)@[idx as int].data, draft: true }),
            )),
{
    if idx >= queue.count() {
        return Err(EngineError::InvalidIndex);
    }
    let id = copy_bytes(&queue.entry_at(idx).id);
    proof {
        assert(queue.ids()[idx as int] == id@);
        assert(queue.ids().contains(id@));
        lemma_sorted_distinct(queue@);
    }
    let r = queue.move_to_with_flag(&id, revive);
    proof {
        if r is Ok {
            let (j, k, nid) = choose|j: int, k: int, nid: Seq<u8>|
                0 <= j < old(queue)@.len() && 0 <= k <= old(revive)@.len() && old(
                    queue,
                )@[j].id == id@ && !ids_of(old(revive)@).contains(nid) && queue@ == old(
                    queue,
                )@.remove(j) && revive@ == old(revive)@.insert(
                    k,
                    (MsgView { id: nid, data: old(queue)@[j].data, draft: true }),
                );
            if j != idx as int {
                assert(old(queue)@[j].id != old(queue)@[idx as int].id);
                assert(false);
            }
        }
    }
    r
}

/// The committed set `post` is `pre` after reviving the messages of
/// `queued`, in order: each message commits one draft entry with its
/// bytes under an identifier fresh at that point, and nothing else
/// changes, so every prior entry is retained and each message commits
/// exactly once.
pub open spec fn revived_into(pre: Seq<MsgView>, queued: Seq<MsgView>, post: Seq<MsgView>) -> bool
    decreases queued.len(),
{
    if queued.len() == 0 {
        post == pre
    } else {
        exists|k: int, nid: Seq<u8>|
            0 <= k <= pre.len() && !ids_of(pre).contains(nid) && revived_into(
                pre.insert(k, (MsgView { id: nid, data: queued[0].data, draft: true })),
                queued.drop_first(),
                post,
            )
    }
}

/// Reviving one more message extends the chain: when `post` is `mid` with
/// one fresh draft of `x` inserted, the messages `q ++ [x]` have been
/// revived from `pre` into `post`.
proof fn lemma_revived_into_push(
    pre: Seq<MsgView>,
    q: Seq<MsgView>,
    mid: Seq<MsgView>,
    x: MsgView,
    k: int,
    nid: Seq<u8>,
    post: Seq<MsgView>,
)
    requires
        revived_into(pre, q, mid),
        0 <= k <= mid.len(),
        !ids_of(mid).contains(nid),
        post == mid.insert(k, (MsgView { id: nid, data: x.data, draft: true })),
    ensures
        revived_into(pre, q.push(x), post),
    decreases q.len(),
{
    let qx = q.push(x);
    if q.len() == 0 {
        assert(mid == pre);
        assert(qx[0] == x);
        assert(qx.drop_first() =~= Seq::<MsgView>::empty());
        assert(revived_into(post, qx.drop_first(), post));
        assert(post == pre.insert(k, (MsgView { id: nid, data: qx[0].data, draft: true })));
        assert(revived_into(
            pre.insert(k, (MsgView { id: nid, data: qx[0].data, draft: true })),
            qx.drop_first(),
            post,
        ));
        assert(revived_into(pre, qx, post));
    } else {
        let (k1, nid1) = choose|k1: int, nid1: Seq<u8>|
            0 <= k1 <= pre.len() && !ids_of(pre).contains(nid1) && revived_into(
                pre.insert(k1, (MsgView { id: nid1, data: q[0].data, draft: true })),
                q.drop_first(),
                mid,
            );
        let mid1 = pre.insert(k1, (MsgView { id: nid1, data: q[0].data, draft: true }));
        lemma_revived_into_push(mid1, q.drop_first(), mid, x, k, nid, post);
        assert(qx.drop_first() =~= q.drop_first().push(x));
        assert(revived_into(mid1, qx.drop_first(), post));
        assert(qx[0] == q[0]);
        assert(revived_into(
            pre.insert(k1, (MsgView { id: nid1, data: qx[0].data, draft: true })),
            qx.drop_first(),
            post,
        ));
        assert(revived_into(pre, qx, post));
    }
}

/// Every message of a committed set has been revived into another: the
/// other set holds an entry with its bytes, flagged as a draft.
pub open spec fn all_revived(pre_queue: Seq<MsgView>, post_revive: Seq<MsgView>) -> bool {
    forall|m: int|
        #![trigger pre_queue[m]]
        0 <= m < pre_queue.len() ==> exists|n: int|
            0 <= n < post_revive.len() && (#[trigger] post_revive[n]).data == pre_queue[m].data
                && post_revive[n].draft
}

/// Revives every queued message in index order, applying the single-revive
/// semantics to each: every message commits one draft entry with its bytes
/// in the revive store, under an identifier fresh there at that point;
/// every entry the revive store already held is retained, and the queue is
/// left empty.
#[verifier::loop_isolation(false)]
#[verifier::rlimit(60)]
pub fn revive_all_one_profile(queue: &mut Store, revive: &mut Store)
    requires
        old(queue).wf(),
        old(revive).wf(),
    ensures
        final(queue).wf(),
        final(revive).wf(),
        final(queue)@.len() == 0,
        final(revive)@.len() == old(revive)@.len() + old(queue)@.len(),
        all_revived(old(queue)@, final(revive)@),
        revived_into(old(revive)@, old(queue)@, final(revive)@),
{
    let ghost orig = queue@;
    proof {
        assert(queue@ =~= orig.skip(0));
        assert(orig.take(0).len() == 0);
        assert(revived_into(old(revive)@, orig.take(0), revive@));
    }
    let ghost mut progress: int = 0;
    while queue.count() > 0
        invariant
            queue.wf(),
            revive.wf(),
            0 <= progress <= orig.len(),
            queue@ =~= orig.skip(progress),
            revive@.len() == old(revive)@.len() + progress,
            all_revived(orig.take(progress), revive@),
            revived_into(old(revive)@, orig.take(progress), revive@),
        decreases queue@.len(),
    {
        let id = copy_bytes(&queue.entry_at(0).id);
        proof {
            assert(queue.ids()[0] == id@);
            assert(queue.ids().contains(id@));
            lemma_sorted_distinct(queue@);
        }
        let ghost qpre = queue@;
        let ghost rpre = revive@;
        match queue.move_to_with_flag(&id, revive) {
            Ok(_) => {
                proof {
                    let (j, k, nid) = choose|j: int, k: int, nid: Seq<u8>|
                        0 <= j < qpre.len() && 0 <= k <= rpre.len() && qpre[j].id == id@
                            && !ids_of(rpre).contains(nid) && queue@ == qpre.remove(j) && revive@
                            == rpre.insert(
                            k,
                            (MsgView { id: nid, data: qpre[j].data, draft: true }),
                        );
                    if j != 0 {
                        assert(qpre[j].id != qpre[0].id);
                        assert(false);
                    }
                    assert(queue@ =~= orig.skip(progress).remove(0));
                    assert(orig.skip(progress).remove(0) =~= orig.skip(progress + 1));
                    lemma_insert_index(
                        rpre,
                        k,
                        (MsgView { id: nid, data: qpre[0].data, draft: true }),
                    );
                    assert(orig[progress].data == qpre[0].data);
                    assert(revive@[k].data == orig[progress].data && revive@[k].draft);
                    assert forall|m: int| #![trigger orig.take(progress + 1)[m]]
                        0 <= m < progress + 1 implies exists|n: int|
                            0 <= n < revive@.len() && (#[trigger] revive@[n]).data == orig.take(
                                progress + 1,
                            )[m].data && revive@[n].draft by {
                        assert(orig.take(progress + 1)[m] == orig[m]);
                        if m < progress {
                            assert(orig.take(progress)[m] == orig[m]);
                            let n0 = choose|n0: int|
                                0 <= n0 < rpre.len() && (#[trigger] rpre[n0]).data == orig.take(
                                    progress,
                                )[m].data && rpre[n0].draft;
                            if n0 < k {
                                assert(revive@[n0] == rpre[n0]);
                            } else {
                                assert(revive@[n0 + 1] == rpre[n0]);
                            }
                        } else {
                            assert(revive@[k].data == orig[m].data);
                        }
                    }
                    assert(all_revived(orig.take(progress + 1), revive@));
                    assert(revive@ == rpre.insert(
                        k,
                        (MsgView { id: nid, data: orig[progress].data, draft: true }),
                    ));
                    lemma_revived_into_push(
                        old(revive)@,
                        orig.take(progress),
                        rpre,
                        orig[progress],
                        k,
                        nid,
                        revive@,
                    );
                    assert(orig.take(progress).push(orig[progress]) =~= orig.take(progress + 1));
                    assert(revived_into(old(revive)@, orig.take(progress + 1), revive@));
                    progress = progress + 1;
                }
            },
            Err(_) => {
                proof {
                    assert(false);
                }
            },
        }
    }
    proof {
        assert(progress == orig.len());
        assert(orig.take(progress) =~= orig);
        assert(all_revived(orig, revive@));
        assert(all_revived(old(queue)@, revive@));
        assert(revived_into(old(revive)@, old(queue)@, revive@));
    }
}

} // verus!
