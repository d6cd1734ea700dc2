//! The durable-store model: users, registered passkey credentials and
//! session tokens, with the uniqueness and referential rules the relational
//! schema enforces.
//!
//! One row exists per registered credential; `credential_id` is globally
//! unique and is the only join key between an authentication response and
//! the stored public key. Sessions and credentials always reference an
//! existing user. A stored signature counter never decreases.

use vstd::prelude::*;

use crate::Error;
use crate::Task;
use crate::TaskV;
use crate::User;
use crate::UserV;

verus! {

/// One registered passkey credential: the raw credential id, the serialized
/// (engine-specific, versioned) public-key blob, the owning username, and
/// the last accepted signature counter.
pub struct CredentialRecord {
    pub credential_id: Vec<u8>,
    pub data: String,
    pub username: String,
    pub counter: u32,
}

/// The mathematical value of a `CredentialRecord`.
pub struct CredentialRecordV {
    pub credential_id: Seq<u8>,
    pub data: Seq<char>,
    pub username: Seq<char>,
    pub counter: u32,
}

impl View for CredentialRecord {
    type V = CredentialRecordV;

    open spec fn view(&self) -> CredentialRecordV {
        CredentialRecordV {
            credential_id: self.credential_id@,
            data: self.data@,
            username: self.username@,
            counter: self.counter,
        }
    }
}

impl Clone for CredentialRecord {
    fn clone(&self) -> (r: Self)
        ensures
            r@ == self@,
    {
        let mut id_copy: Vec<u8> = Vec::new();
        let mut i: usize = 0;
        while i < self.credential_id.len()
            invariant
                i <= self.credential_id@.len(),
                id_copy@ == self.credential_id@.take(i as int),
            decreases self.credential_id@.len() - i,
        {
            id_copy.push(self.credential_id[i]);
            proof {
                assert(id_copy@ =~= self.credential_id@.take(i + 1));
            }
            i = i + 1;
        }
        proof {
            assert(id_copy@ =~= self.credential_id@);
        }
        CredentialRecord {
            credential_id: id_copy,
            data: self.data.clone(),
            username: self.username.clone(),
            counter: self.counter,
        }
    }
}

/// One issued session token: the opaque id and the owning username.
pub struct SessionRecord {
    pub id: u128,
    pub username: String,
}

/// The mathematical value of a `SessionRecord`.
pub struct SessionRecordV {
    pub id: u128,
    pub username: Seq<char>,
}

impl View for SessionRecord {
    type V = SessionRecordV;

    open spec fn view(&self) -> SessionRecordV {
        SessionRecordV { id: self.id, username: self.username@ }
    }
}

/// Byte-for-byte equality of two byte vectors.
fn bytes_eq(a: &Vec<u8>, b: &Vec<u8>) -> (r: bool)
    ensures
        r == (a@ == b@),
{
    if a.len() != b.len() {
        return false;
    }
    let mut i: usize = 0;
    while i < a.len()
        invariant
            i <= a@.len(),
            a@.len() == b@.len(),
            forall|j: int| 0 <= j < i ==> a@[j] == b@[j],
        decreases a@.len() - i,
    {
        if a[i] != b[i] {
            return false;
        }
        i = i + 1;
    }
    proof {
        assert(a@ =~= b@);
    }
    true
}

// Unambiguous lookup by unique key, for each of the three tables.
/// No two users share a name.
pub open spec fn user_names_unique(s: Seq<UserV>) -> bool {
    forall|i: int, j: int|
        0 <= i < j < s.len() ==> (#[trigger] s[i]).name != (#[trigger] s[j]).name
}

/// Some user of `s` carries `name`.
pub open spec fn useq_has(s: Seq<UserV>, name: Seq<char>) -> bool {
    exists|i: int| 0 <= i < s.len() && (#[trigger] s[i]).name == name
}

/// The index of the user named `name` (meaningful when `useq_has` holds).
pub open spec fn useq_idx(s: Seq<UserV>, name: Seq<char>) -> int {
    choose|i: int| 0 <= i < s.len() && (#[trigger] s[i]).name == name
}

/// The user named `name` (meaningful when `useq_has` holds).
pub open spec fn useq_at(s: Seq<UserV>, name: Seq<char>) -> UserV {
    s[useq_idx(s, name)]
}

proof fn lemma_user_at(s: Seq<UserV>, name: Seq<char>, i: int)
    requires
        user_names_unique(s),
        0 <= i < s.len(),
        s[i].name == name,
    ensures
        useq_has(s, name),
        useq_idx(s, name) == i,
        useq_at(s, name) == s[i],
{
    assert(useq_has(s, name));
    let j = useq_idx(s, name);
    if i != j {
        assert(s[i].name != s[j].name);
    }
}

proof fn lemma_user_push(s: Seq<UserV>, u: UserV)
    requires
        user_names_unique(s),
        !useq_has(s, u.name),
    ensures
        user_names_unique(s.push(u)),
        useq_has(s.push(u), u.name),
        useq_at(s.push(u), u.name) == u,
        forall|n: Seq<char>|
            n != u.name ==> (#[trigger] useq_has(s.push(u), n) <==> useq_has(s, n)),
        forall|n: Seq<char>|
            n != u.name && useq_has(s, n) ==> #[trigger] useq_at(s.push(u), n) == useq_at(s, n),
{
    let t = s.push(u);
    assert forall|a: int, b: int| 0 <= a < b < t.len() implies (#[trigger] t[a]).name != (
    #[trigger] t[b]).name by {
        if b == s.len() {
            assert(t[a] == s[a] && t[b] == u);
            if s[a].name == u.name {
                lemma_user_at(s, u.name, a);
            }
        } else {
            assert(t[a] == s[a] && t[b] == s[b]);
        }
    }
    assert(t[s.len() as int] == u);
    lemma_user_at(t, u.name, s.len() as int);
    assert forall|n: Seq<char>| n != u.name implies (#[trigger] useq_has(t, n) <==> useq_has(
        s,
        n,
    )) by {
        if useq_has(t, n) {
            let i = useq_idx(t, n);
            assert(0 <= i < t.len() && t[i].name == n);
            assert(i != s.len());
            assert(t[i] == s[i]);
            assert(useq_has(s, n));
        }
        if useq_has(s, n) {
            let i = useq_idx(s, n);
            assert(t[i] == s[i]);
            assert(useq_has(t, n));
        }
    }
    assert forall|n: Seq<char>| n != u.name && useq_has(s, n) implies #[trigger] useq_at(t, n)
        == useq_at(s, n) by {
        let i = useq_idx(s, n);
        assert(0 <= i < s.len() && s[i].name == n);
        assert(t[i] == s[i]);
        lemma_user_at(t, n, i);
        lemma_user_at(s, n, i);
    }
}

/// No two credentials share a credential id.
pub open spec fn cred_ids_unique(s: Seq<CredentialRecordV>) -> bool {
    forall|i: int, j: int|
        0 <= i < j < s.len() ==> (#[trigger] s[i]).credential_id != (
        #[trigger] s[j]).credential_id
}

/// Some credential of `s` carries `id`.
pub open spec fn cseq_has(s: Seq<CredentialRecordV>, id: Seq<u8>) -> bool {
    exists|i: int| 0 <= i < s.len() && (#[trigger] s[i]).credential_id == id
}

/// The index of the credential with `id` (meaningful when `cseq_has` holds).
pub open spec fn cseq_idx(s: Seq<CredentialRecordV>, id: Seq<u8>) -> int {
    choose|i: int| 0 <= i < s.len() && (#[trigger] s[i]).credential_id == id
}

/// The credential with `id` (meaningful when `cseq_has` holds).
pub open spec fn cseq_at(s: Seq<CredentialRecordV>, id: Seq<u8>) -> CredentialRecordV {
    s[cseq_idx(s, id)]
}

proof fn lemma_cred_at(s: Seq<CredentialRecordV>, id: Seq<u8>, i: int)
    requires
        cred_ids_unique(s),
        0 <= i < s.len(),
        s[i].credential_id == id,
    ensures
        cseq_has(s, id),
        cseq_idx(s, id) == i,
        cseq_at(s, id) == s[i],
{
    assert(cseq_has(s, id));
    let j = cseq_idx(s, id);
    if i != j {
        assert(s[i].credential_id != s[j].credential_id);
    }
}

proof fn lemma_cred_push(s: Seq<CredentialRecordV>, c: CredentialRecordV)
    requires
        cred_ids_unique(s),
        !cseq_has(s, c.credential_id),
    ensures
        cred_ids_unique(s.push(c)),
        cseq_has(s.push(c), c.credential_id),
        cseq_at(s.push(c), c.credential_id) == c,
        forall|k: Seq<u8>|
            k != c.credential_id ==> (#[trigger] cseq_has(s.push(c), k) <==> cseq_has(s, k)),
        forall|k: Seq<u8>|
            k != c.credential_id && cseq_has(s, k) ==> #[trigger] cseq_at(s.push(c), k) == cseq_at(
                s,
                k,
            ),
{
    let t = s.push(c);
    assert forall|a: int, b: int| 0 <= a < b < t.len() implies (#[trigger] t[a]).credential_id != (
    #[trigger] t[b]).credential_id by {
        if b == s.len() {
            assert(t[a] == s[a] && t[b] == c);
            if s[a].credential_id == c.credential_id {
                lemma_cred_at(s, c.credential_id, a);
            }
        } else {
            assert(t[a] == s[a] && t[b] == s[b]);
        }
    }
    assert(t[s.len() as int] == c);
    lemma_cred_at(t, c.credential_id, s.len() as int);
    assert forall|k: Seq<u8>| k != c.credential_id implies (#[trigger] cseq_has(t, k)
        <==> cseq_has(s, k)) by {
        if cseq_has(t, k) {
            let i = cseq_idx(t, k);
            assert(0 <= i < t.len() && t[i].credential_id == k);
            assert(i != s.len());
            assert(t[i] == s[i]);
            assert(cseq_has(s, k));
        }
        if cseq_has(s, k) {
            let i = cseq_idx(s, k);
            assert(t[i] == s[i]);
            assert(cseq_has(t, k));
        }
    }
    assert forall|k: Seq<u8>| k != c.credential_id && cseq_has(s, k) implies #[trigger] cseq_at(
        t,
        k,
    ) == cseq_at(s, k) by {
        let i = cseq_idx(s, k);
        assert(0 <= i < s.len() && s[i].credential_id == k);
        assert(t[i] == s[i]);
        lemma_cred_at(t, k, i);
        lemma_cred_at(s, k, i);
    }
}

proof fn lemma_cred_update(s: Seq<CredentialRecordV>, i: int, c: CredentialRecordV)
    requires
        cred_ids_unique(s),
        0 <= i < s.len(),
        c.credential_id == s[i].credential_id,
    ensures
        cred_ids_unique(s.update(i, c)),
        forall|k: Seq<u8>| #[trigger] cseq_has(s.update(i, c), k) <==> cseq_has(s, k),
        cseq_at(s.update(i, c), c.credential_id) == c,
        forall|k: Seq<u8>|
            k != c.credential_id && cseq_has(s, k) ==> #[trigger] cseq_at(s.update(i, c), k)
                == cseq_at(s, k),
{
    let t = s.update(i, c);
    assert forall|a: int, b: int| 0 <= a < b < t.len() implies (#[trigger] t[a]).credential_id != (
    #[trigger] t[b]).credential_id by {
        assert(t[a] == if a == i {
            c
        } else {
            s[a]
        });
        assert(t[b] == if b == i {
            c
        } else {
            s[b]
        });
    }
    assert forall|k: Seq<u8>| #[trigger] cseq_has(t, k) <==> cseq_has(s, k) by {
        if cseq_has(t, k) {
            let a = cseq_idx(t, k);
            if a == i {
                assert(s[i].credential_id == k);
                assert(cseq_has(s, k));
            } else {
                assert(t[a] == s[a]);
                assert(cseq_has(s, k));
            }
        }
        if cseq_has(s, k) {
            let a = cseq_idx(s, k);
            if a == i {
                assert(t[i] == c);
                assert(cseq_has(t, k));
            } else {
                assert(t[a] == s[a]);
                assert(cseq_has(t, k));
            }
        }
    }
    assert(t[i] == c);
    lemma_cred_at(t, c.credential_id, i);
    assert forall|k: Seq<u8>| k != c.credential_id && cseq_has(s, k) implies #[trigger] cseq_at(
        t,
        k,
    ) == cseq_at(s, k) by {
        let a = cseq_idx(s, k);
        assert(0 <= a < s.len() && s[a].credential_id == k);
        if a == i {
            lemma_cred_at(s, c.credential_id, i);
        }
        assert(t[a] == s[a]);
        lemma_cred_at(t, k, a);
        lemma_cred_at(s, k, a);
    }
}

/// No two sessions share an id.
pub open spec fn session_ids_unique(s: Seq<SessionRecordV>) -> bool {
    forall|i: int, j: int|
        0 <= i < j < s.len() ==> (#[trigger] s[i]).id != (#[trigger] s[j]).id
}

/// Some session of `s` carries `id`.
pub open spec fn sseq_has(s: Seq<SessionRecordV>, id: u128) -> bool {
    exists|i: int| 0 <= i < s.len() && (#[trigger] s[i]).id == id
}

/// The index of the session with `id` (meaningful when `sseq_has` holds).
pub open spec fn sseq_idx(s: Seq<SessionRecordV>, id: u128) -> int {
    choose|i: int| 0 <= i < s.len() && (#[trigger] s[i]).id == id
}

/// The session with `id` (meaningful when `sseq_has` holds).
pub open spec fn sseq_at(s: Seq<SessionRecordV>, id: u128) -> SessionRecordV {
    s[sseq_idx(s, id)]
}

proof fn lemma_session_at(s: Seq<SessionRecordV>, id: u128, i: int)
    requires
        session_ids_unique(s),
        0 <= i < s.len(),
        s[i].id == id,
    ensures
        sseq_has(s, id),
        sseq_idx(s, id) == i,
        sseq_at(s, id) == s[i],
{
    assert(sseq_has(s, id));
    let j = sseq_idx(s, id);
    if i != j {
        assert(s[i].id != s[j].id);
    }
}

proof fn lemma_session_push(s: Seq<SessionRecordV>, e: SessionRecordV)
    requires
        session_ids_unique(s),
        !sseq_has(s, e.id),
    ensures
        session_ids_unique(s.push(e)),
        sseq_has(s.push(e), e.id),
        sseq_at(s.push(e), e.id) == e,
        forall|k: u128| k != e.id ==> (#[trigger] sseq_has(s.push(e), k) <==> sseq_has(s, k)),
        forall|k: u128|
            k != e.id && sseq_has(s, k) ==> #[trigger] sseq_at(s.push(e), k) == sseq_at(s, k),
{
    let t = s.push(e);
    assert forall|a: int, b: int| 0 <= a < b < t.len() implies (#[trigger] t[a]).id != (
    #[trigger] t[b]).id by {
        if b == s.len() {
            assert(t[a] == s[a] && t[b] == e);
            if s[a].id == e.id {
                lemma_session_at(s, e.id, a);
            }
        } else {
            assert(t[a] == s[a] && t[b] == s[b]);
        }
    }
    assert(t[s.len() as int] == e);
    lemma_session_at(t, e.id, s.len() as int);
    assert forall|k: u128| k != e.id implies (#[trigger] sseq_has(t, k) <==> sseq_has(s, k)) by {
        if sseq_has(t, k) {
            let i = sseq_idx(t, k);
            assert(0 <= i < t.len() && t[i].id == k);
            assert(i != s.len());
            assert(t[i] == s[i]);
            assert(sseq_has(s, k));
        }
        if sseq_has(s, k) {
            let i = sseq_idx(s, k);
            assert(t[i] == s[i]);
            assert(sseq_has(t, k));
        }
    }
    assert forall|k: u128| k != e.id && sseq_has(s, k) implies #[trigger] sseq_at(t, k) == sseq_at(
        s,
        k,
    ) by {
        let i = sseq_idx(s, k);
        assert(0 <= i < s.len() && s[i].id == k);
        assert(t[i] == s[i]);
        lemma_session_at(t, k, i);
        lemma_session_at(s, k, i);
    }
}

/// One stored to-do row: the task and its owning username.
pub struct TaskRow {
    pub task: Task,
    pub username: String,
}

/// The mathematical value of a `TaskRow`.
pub struct TaskRowV {
    pub task: TaskV,
    pub username: Seq<char>,
}

impl View for TaskRow {
    type V = TaskRowV;

    open spec fn view(&self) -> TaskRowV {
        TaskRowV { task: self.task@, username: self.username@ }
    }
}

/// No two task rows share a task id.
pub open spec fn task_ids_unique(s: Seq<TaskRowV>) -> bool {
    forall|i: int, j: int|
        0 <= i < j < s.len() ==> (#[trigger] s[i]).task.id != (#[trigger] s[j]).task.id
}

/// Some task row of `s` carries `id`.
pub open spec fn tseq_has(s: Seq<TaskRowV>, id: u128) -> bool {
    exists|i: int| 0 <= i < s.len() && (#[trigger] s[i]).task.id == id
}

/// The index of the task row with `id` (meaningful when `tseq_has` holds).
pub open spec fn tseq_idx(s: Seq<TaskRowV>, id: u128) -> int {
    choose|i: int| 0 <= i < s.len() && (#[trigger] s[i]).task.id == id
}

/// The task row with `id` (meaningful when `tseq_has` holds).
pub open spec fn tseq_at(s: Seq<TaskRowV>, id: u128) -> TaskRowV {
    s[tseq_idx(s, id)]
}

proof fn lemma_task_at(s: Seq<TaskRowV>, id: u128, i: int)
    requires
        task_ids_unique(s),
        0 <= i < s.len(),
        s[i].task.id == id,
    ensures
        tseq_has(s, id),
        tseq_idx(s, id) == i,
        tseq_at(s, id) == s[i],
{
    assert(tseq_has(s, id));
    let j = tseq_idx(s, id);
    if i != j {
        assert(s[i].task.id != s[j].task.id);
    }
}

proof fn lemma_task_push(s: Seq<TaskRowV>, t: TaskRowV)
    requires
        task_ids_unique(s),
        !tseq_has(s, t.task.id),
    ensures
        task_ids_unique(s.push(t)),
        tseq_has(s.push(t), t.task.id),
        tseq_at(s.push(t), t.task.id) == t,
        forall|k: u128|
            k != t.task.id ==> (#[trigger] tseq_has(s.push(t), k) <==> tseq_has(s, k)),
        forall|k: u128|
            k != t.task.id && tseq_has(s, k) ==> #[trigger] tseq_at(s.push(t), k) == tseq_at(s, k),
{
    let u = s.push(t);
    assert forall|a: int, b: int| 0 <= a < b < u.len() implies (#[trigger] u[a]).task.id != (
    #[trigger] u[b]).task.id by {
        if b == s.len() {
            assert(u[a] == s[a] && u[b] == t);
            if s[a].task.id == t.task.id {
                lemma_task_at(s, t.task.id, a);
            }
        } else {
            assert(u[a] == s[a] && u[b] == s[b]);
        }
    }
    assert(u[s.len() as int] == t);
    lemma_task_at(u, t.task.id, s.len() as int);
    assert forall|k: u128| k != t.task.id implies (#[trigger] tseq_has(u, k) <==> tseq_has(
        s,
        k,
    )) by {
        if tseq_has(u, k) {
            let i = tseq_idx(u, k);
            assert(0 <= i < u.len() && u[i].task.id == k);
            assert(i != s.len());
            assert(u[i] == s[i]);
            assert(tseq_has(s, k));
        }
        if tseq_has(s, k) {
            let i = tseq_idx(s, k);
            assert(u[i] == s[i]);
            assert(tseq_has(u, k));
        }
    }
    assert forall|k: u128| k != t.task.id && tseq_has(s, k) implies #[trigger] tseq_at(u, k)
        == tseq_at(s, k) by {
        let i = tseq_idx(s, k);
        assert(0 <= i < s.len() && s[i].task.id == k);
        assert(u[i] == s[i]);
        lemma_task_at(u, k, i);
        lemma_task_at(s, k, i);
    }
}

proof fn lemma_task_update(s: Seq<TaskRowV>, i: int, t: TaskRowV)
    requires
        task_ids_unique(s),
        0 <= i < s.len(),
        t.task.id == s[i].task.id,
    ensures
        task_ids_unique(s.update(i, t)),
        forall|k: u128| #[trigger] tseq_has(s.update(i, t), k) <==> tseq_has(s, k),
        tseq_at(s.update(i, t), t.task.id) == t,
        forall|k: u128|
            k != t.task.id && tseq_has(s, k) ==> #[trigger] tseq_at(s.update(i, t), k) == tseq_at(
                s,
                k,
            ),
{
    let u = s.update(i, t);
    assert forall|a: int, b: int| 0 <= a < b < u.len() implies (#[trigger] u[a]).task.id != (
    #[trigger] u[b]).task.id by {
        assert(u[a] == if a == i {
            t
        } else {
            s[a]
        });
        assert(u[b] == if b == i {
            t
        } else {
            s[b]
        });
    }
    assert forall|k: u128| #[trigger] tseq_has(u, k) <==> tseq_has(s, k) by {
        if tseq_has(u, k) {
            let a = tseq_idx(u, k);
            if a == i {
                assert(s[i].task.id == k);
                assert(tseq_has(s, k));
            } else {
                assert(u[a] == s[a]);
                assert(tseq_has(s, k));
            }
        }
        if tseq_has(s, k) {
            let a = tseq_idx(s, k);
            if a == i {
                assert(u[i] == t);
                assert(tseq_has(u, k));
            } else {
                assert(u[a] == s[a]);
                assert(tseq_has(u, k));
            }
        }
    }
    assert(u[i] == t);
    lemma_task_at(u, t.task.id, i);
    assert forall|k: u128| k != t.task.id && tseq_has(s, k) implies #[trigger] tseq_at(u, k)
        == tseq_at(s, k) by {
        let a = tseq_idx(s, k);
        assert(0 <= a < s.len() && s[a].task.id == k);
        if a == i {
            lemma_task_at(s, t.task.id, i);
        }
        assert(u[a] == s[a]);
        lemma_task_at(u, k, a);
        lemma_task_at(s, k, a);
    }
}

proof fn lemma_task_remove(s: Seq<TaskRowV>, j: int)
    requires
        task_ids_unique(s),
        0 <= j < s.len(),
    ensures
        task_ids_unique(s.remove(j)),
        !tseq_has(s.remove(j), s[j].task.id),
        forall|k: u128|
            k != s[j].task.id ==> (#[trigger] tseq_has(s.remove(j), k) <==> tseq_has(s, k)),
        forall|k: u128|
            k != s[j].task.id && tseq_has(s, k) ==> #[trigger] tseq_at(s.remove(j), k) == tseq_at(
                s,
                k,
            ),
{
    let t = s.remove(j);
    assert forall|a: int, b: int| 0 <= a < b < t.len() implies (#[trigger] t[a]).task.id != (
    #[trigger] t[b]).task.id by {
        let a0 = if a < j { a } else { a + 1 };
        let b0 = if b < j { b } else { b + 1 };
        assert(t[a] == s[a0] && t[b] == s[b0]);
    }
    assert forall|i: int| 0 <= i < t.len() implies (#[trigger] t[i]).task.id != s[j].task.id by {
        let i0 = if i < j { i } else { i + 1 };
        assert(t[i] == s[i0]);
        assert(i0 != j);
    }
    assert forall|k: u128| k != s[j].task.id implies (#[trigger] tseq_has(t, k) <==> tseq_has(
        s,
        k,
    )) by {
        if tseq_has(t, k) {
            let i = tseq_idx(t, k);
            let i0 = if i < j { i } else { i + 1 };
            assert(t[i] == s[i0]);
            lemma_task_at(s, k, i0);
        }
        if tseq_has(s, k) {
            let i0 = tseq_idx(s, k);
            assert(0 <= i0 < s.len() && s[i0].task.id == k);
            assert(i0 != j);
            let i = if i0 < j { i0 } else { i0 - 1 };
            assert(t[i] == s[i0]);
            assert(tseq_has(t, k));
        }
    }
    assert forall|k: u128| k != s[j].task.id && tseq_has(s, k) implies #[trigger] tseq_at(t, k)
        == tseq_at(s, k) by {
        let i0 = tseq_idx(s, k);
        assert(0 <= i0 < s.len() && s[i0].task.id == k);
        assert(i0 != j);
        let i = if i0 < j { i0 } else { i0 - 1 };
        assert(t[i] == s[i0]);
        lemma_task_at(t, k, i);
    }
}

/// The task rows of `s` owned by `name`, in stored (creation) order.
pub open spec fn tasks_with_user(s: Seq<TaskRowV>, name: Seq<char>) -> Seq<TaskV>
    decreases s.len(),
{
    if s.len() == 0 {
        Seq::empty()
    } else {
        let rest = tasks_with_user(s.drop_first(), name);
        if s.first().username == name {
            seq![s.first().task] + rest
        } else {
            rest
        }
    }
}

/// The task rows of `s` owned by `name` whose `completed` flag is `done`,
/// in stored (creation) order.
pub open spec fn tasks_with_user_done(s: Seq<TaskRowV>, name: Seq<char>, done: bool) -> Seq<TaskV>
    decreases s.len(),
{
    if s.len() == 0 {
        Seq::empty()
    } else {
        let rest = tasks_with_user_done(s.drop_first(), name, done);
        if s.first().username == name && s.first().task.completed == done {
            seq![s.first().task] + rest
        } else {
            rest
        }
    }
}

/// The credentials of `s` owned by `name`, in stored order.
pub open spec fn creds_with_user(s: Seq<CredentialRecordV>, name: Seq<char>) -> Seq<
    CredentialRecordV,
>
    decreases s.len(),
{
    if s.len() == 0 {
        Seq::empty()
    } else {
        let rest = creds_with_user(s.drop_first(), name);
        if s.first().username == name {
            seq![s.first()] + rest
        } else {
            rest
        }
    }
}

/// The in-memory image of the durable store.
pub struct Database {
    users: Vec<User>,
    credentials: Vec<CredentialRecord>,
    sessions: Vec<SessionRecord>,
    tasks: Vec<TaskRow>,
}

impl Database {
    /// The stored users, as mathematical values.
    pub closed spec fn users_seq(self) -> Seq<UserV> {
        self.users@.map_values(|u: User| u@)
    }

    /// The stored credentials, as mathematical values.
    pub closed spec fn creds_seq(self) -> Seq<CredentialRecordV> {
        self.credentials@.map_values(|c: CredentialRecord| c@)
    }

    /// The stored sessions, as mathematical values.
    pub closed spec fn sessions_seq(self) -> Seq<SessionRecordV> {
        self.sessions@.map_values(|s: SessionRecord| s@)
    }

    /// The stored task rows, as mathematical values.
    pub closed spec fn tasks_seq(self) -> Seq<TaskRowV> {
        self.tasks@.map_values(|t: TaskRow| t@)
    }

    /// Is a task stored under `id`?
    pub open spec fn has_task(self, id: u128) -> bool {
        tseq_has(self.tasks_seq(), id)
    }

    /// The task row stored under `id` (meaningful when `has_task` holds).
    pub open spec fn task_of(self, id: u128) -> TaskRowV {
        tseq_at(self.tasks_seq(), id)
    }

    /// The tasks owned by `name`, in creation order.
    pub open spec fn tasks_of_user(self, name: Seq<char>) -> Seq<TaskV> {
        tasks_with_user(self.tasks_seq(), name)
    }

    /// The tasks owned by `name` with `completed == done`, in creation order.
    pub open spec fn tasks_of_user_done(self, name: Seq<char>, done: bool) -> Seq<TaskV> {
        tasks_with_user_done(self.tasks_seq(), name, done)
    }

    /// Does a user named `name` exist?
    pub open spec fn user_exists(self, name: Seq<char>) -> bool {
        useq_has(self.users_seq(), name)
    }

    /// The user named `name` (meaningful when `user_exists` holds).
    pub open spec fn user_of(self, name: Seq<char>) -> UserV {
        useq_at(self.users_seq(), name)
    }

    /// Is a credential stored under `id`?
    pub open spec fn has_cred(self, id: Seq<u8>) -> bool {
        cseq_has(self.creds_seq(), id)
    }

    /// The credential stored under `id` (meaningful when `has_cred` holds).
    pub open spec fn cred_of(self, id: Seq<u8>) -> CredentialRecordV {
        cseq_at(self.creds_seq(), id)
    }

    /// The credentials owned by `name`, in stored order.
    pub open spec fn creds_of_user(self, name: Seq<char>) -> Seq<CredentialRecordV> {
        creds_with_user(self.creds_seq(), name)
    }

    /// Is a session stored under `id`?
    pub open spec fn has_session(self, id: u128) -> bool {
        sseq_has(self.sessions_seq(), id)
    }

    /// The username owning session `id` (meaningful when `has_session` holds).
    pub open spec fn session_user(self, id: u128) -> Seq<char> {
        sseq_at(self.sessions_seq(), id).username
    }

    /// Well-formed: unique keys in every table, and every credential and
    /// session references an existing user.
    pub open spec fn wf(self) -> bool {
        &&& user_names_unique(self.users_seq())
        &&& cred_ids_unique(self.creds_seq())
        &&& session_ids_unique(self.sessions_seq())
        &&& task_ids_unique(self.tasks_seq())
        &&& forall|i: int|
            0 <= i < self.creds_seq().len() ==> self.user_exists(
                (#[trigger] self.creds_seq()[i]).username,
            )
        &&& forall|i: int|
            0 <= i < self.sessions_seq().len() ==> self.user_exists(
                (#[trigger] self.sessions_seq()[i]).username,
            )
        &&& forall|i: int|
            0 <= i < self.tasks_seq().len() ==> self.user_exists(
                (#[trigger] self.tasks_seq()[i]).username,
            )
    }

    /// An empty store.
    pub fn new() -> (db: Self)
        ensures
            db.wf(),
            db.users_seq() == Seq::<UserV>::empty(),
            db.creds_seq() == Seq::<CredentialRecordV>::empty(),
            db.sessions_seq() == Seq::<SessionRecordV>::empty(),
            db.tasks_seq() == Seq::<TaskRowV>::empty(),
    {
        let db = Database {
            users: Vec::new(),
            credentials: Vec::new(),
            sessions: Vec::new(),
            tasks: Vec::new(),
        };
        proof {
            assert(db.users_seq() =~= Seq::<UserV>::empty());
            assert(db.creds_seq() =~= Seq::<CredentialRecordV>::empty());
            assert(db.sessions_seq() =~= Seq::<SessionRecordV>::empty());
            assert(db.tasks_seq() =~= Seq::<TaskRowV>::empty());
        }
        db
    }

    /// The index of the user named `name`, if any.
    fn find_user_index(&self, name: &String) -> (r: Option<usize>)
        ensures
            match r {
                Some(i) => i < self.users_seq().len() && self.users_seq()[i as int].name == name@,
                None => !self.user_exists(name@),
            },
    {
        let mut i: usize = 0;
        while i < self.users.len()
            invariant
                i <= self.users_seq().len(),
                forall|j: int| 0 <= j < i ==> (#[trigger] self.users_seq()[j]).name != name@,
            decreases self.users_seq().len() - i,
        {
            if self.users[i].name == *name {
                return Some(i);
            }
            i = i + 1;
        }
        None
    }

    /// The index of the credential with `credential_id`, if any.
    fn find_cred_index(&self, credential_id: &Vec<u8>) -> (r: Option<usize>)
        ensures
            match r {
                Some(i) => i < self.creds_seq().len() && self.creds_seq()[i as int].credential_id
                    == credential_id@,
                None => !self.has_cred(credential_id@),
            },
    {
        let mut i: usize = 0;
        while i < self.credentials.len()
            invariant
                i <= self.creds_seq().len(),
                forall|j: int|
                    0 <= j < i ==> (#[trigger] self.creds_seq()[j]).credential_id
                        != credential_id@,
            decreases self.creds_seq().len() - i,
        {
            if bytes_eq(&self.credentials[i].credential_id, credential_id) {
                return Some(i);
            }
            i = i + 1;
        }
        None
    }

    /// The index of the session with `id`, if any.
    fn find_session_index(&self, id: u128) -> (r: Option<usize>)
        ensures
            match r {
                Some(i) => i < self.sessions_seq().len() && self.sessions_seq()[i as int].id == id,
                None => !self.has_session(id),
            },
    {
        let mut i: usize = 0;
        while i < self.sessions.len()
            invariant
                i <= self.sessions_seq().len(),
                forall|j: int| 0 <= j < i ==> (#[trigger] self.sessions_seq()[j]).id != id,
            decreases self.sessions_seq().len() - i,
        {
            if self.sessions[i].id == id {
                return Some(i);
            }
            i = i + 1;
        }
        None
    }

    /// Create a user on first registration attempt. Fails with `Conflict`
    /// exactly when the name is already taken; nothing else changes then.
    pub fn create_user(&mut self, name: &String, id: u128) -> (r: Result<User, Error>)
        requires
            old(self).wf(),
        ensures
            final(self).wf(),
            r is Ok <==> !old(self).user_exists(name@),
            match r {
                Ok(u) => {
                    &&& u@ == (UserV { name: name@, id })
                    &&& final(self).users_seq() == old(self).users_seq().push(u@)
                    &&& forall|n: Seq<char>|
                        #[trigger] final(self).user_exists(n) <==> old(self).user_exists(n) || n
                            == name@
                    &&& final(self).user_of(name@) == u@
                    &&& forall|n: Seq<char>|
                        n != name@ && final(self).user_exists(n)
                            ==> #[trigger] final(self).user_of(n) == old(self).user_of(n)
                    &&& final(self).creds_seq() == old(self).creds_seq()
                    &&& final(self).sessions_seq() == old(self).sessions_seq()
                    &&& final(self).tasks_seq() == old(self).tasks_seq()
                },
                Err(e) => e == Error::Conflict && *final(self) == *old(self),
            },
    {
        if self.find_user_index(name).is_some() {
            return Err(Error::Conflict);
        }
        let u = User { name: name.clone(), id };
        let ghost pre = *self;
        proof {
            lemma_user_push(pre.users_seq(), u@);
        }
        self.users.push(u.clone());
        proof {
            assert(self.users_seq() =~= pre.users_seq().push(u@));
            assert forall|n: Seq<char>| #[trigger] self.user_exists(n) implies pre.user_exists(n)
                || n == name@ by {
                assert(useq_has(pre.users_seq().push(u@), n));
            }
            assert forall|n: Seq<char>| pre.user_exists(n) || n == name@ implies #[trigger] self
                .user_exists(n) by {
                assert(useq_has(pre.users_seq().push(u@), n));
            }
            assert forall|i: int| 0 <= i < self.creds_seq().len() implies self.user_exists(
                (#[trigger] self.creds_seq()[i]).username,
            ) by {
                assert(pre.user_exists(pre.creds_seq()[i].username));
            }
            assert forall|i: int| 0 <= i < self.sessions_seq().len() implies self.user_exists(
                (#[trigger] self.sessions_seq()[i]).username,
            ) by {
                assert(pre.user_exists(pre.sessions_seq()[i].username));
            }
        }
        Ok(u)
    }

    /// What one credential insertion does: it succeeds exactly when the
    /// credential id is new and the user exists, appending one row; a
    /// duplicate id is a `Conflict`, a missing user a `NotFound`, and a
    /// failed insertion changes nothing.
    pub open spec fn inserted(
        pre: Self,
        post: Self,
        cred_id: Seq<u8>,
        data: Seq<char>,
        username: Seq<char>,
        counter: u32,
        r: Result<(), Error>,
    ) -> bool {
        &&& (r is Ok <==> !pre.has_cred(cred_id) && pre.user_exists(username))
        &&& (pre.has_cred(cred_id) ==> r == Err::<(), Error>(Error::Conflict))
        &&& (!pre.has_cred(cred_id) && !pre.user_exists(username) ==> r == Err::<(), Error>(
            Error::NotFound,
        ))
        &&& (r is Ok ==> {
            let rec = CredentialRecordV { credential_id: cred_id, data, username, counter };
            &&& post.creds_seq() == pre.creds_seq().push(rec)
            &&& forall|k: Seq<u8>|
                #[trigger] post.has_cred(k) <==> pre.has_cred(k) || k == cred_id
            &&& post.cred_of(cred_id) == rec
            &&& forall|k: Seq<u8>|
                k != cred_id && post.has_cred(k) ==> #[trigger] post.cred_of(k) == pre.cred_of(k)
            &&& post.users_seq() == pre.users_seq()
            &&& post.sessions_seq() == pre.sessions_seq()
            &&& post.tasks_seq() == pre.tasks_seq()
        })
        &&& (r is Err ==> post == pre)
    }

    /// Persist one newly registered credential.
    pub fn insert(
        &mut self,
        credential_id: Vec<u8>,
        data: String,
        username: String,
        counter: u32,
    ) -> (r: Result<(), Error>)
        requires
            old(self).wf(),
        ensures
            final(self).wf(),
            Self::inserted(
                *old(self),
                *final(self),
                credential_id@,
                data@,
                username@,
                counter,
                r,
            ),
    {
        if self.find_cred_index(&credential_id).is_some() {
            return Err(Error::Conflict);
        }
        if self.find_user_index(&username).is_none() {
            return Err(Error::NotFound);
        }
        let rec = CredentialRecord { credential_id, data, username, counter };
        let ghost pre = *self;
        proof {
            lemma_cred_push(pre.creds_seq(), rec@);
        }
        self.credentials.push(rec);
        proof {
            assert(self.creds_seq() =~= pre.creds_seq().push(
                self.creds_seq()[pre.creds_seq().len() as int],
            ));
            assert forall|k: Seq<u8>| #[trigger] self.has_cred(k) implies pre.has_cred(k) || k
                == self.creds_seq()[pre.creds_seq().len() as int].credential_id by {
                assert(cseq_has(pre.creds_seq().push(
                    self.creds_seq()[pre.creds_seq().len() as int],
                ), k));
            }
            assert forall|i: int| 0 <= i < self.creds_seq().len() implies self.user_exists(
                (#[trigger] self.creds_seq()[i]).username,
            ) by {
                if i < pre.creds_seq().len() {
                    assert(self.creds_seq()[i] == pre.creds_seq()[i]);
                }
            }
        }
        Ok(())
    }

    /// The credentials registered for `username`, in stored order. An
    /// unknown user yields the empty list, not an error, so callers cannot
    /// tell an unknown name from a name with no credentials.
    pub fn find_by_username(&self, username: &String) -> (r: Vec<CredentialRecord>)
        ensures
            r@.map_values(|c: CredentialRecord| c@) == self.creds_of_user(username@),
    {
        let mut out: Vec<CredentialRecord> = Vec::new();
        let mut i: usize = 0;
        proof {
            assert(self.creds_seq().skip(0) =~= self.creds_seq());
        }
        while i < self.credentials.len()
            invariant
                i <= self.creds_seq().len(),
                self.creds_of_user(username@) =~= out@.map_values(|c: CredentialRecord| c@)
                    + creds_with_user(self.creds_seq().skip(i as int), username@),
            decreases self.creds_seq().len() - i,
        {
            let ghost rest = self.creds_seq().skip(i as int);
            proof {
                assert(rest.len() > 0);
                assert(rest.first() == self.creds_seq()[i as int]);
                assert(rest.drop_first() =~= self.creds_seq().skip(i as int + 1));
            }
            if self.credentials[i].username == *username {
                let c = self.credentials[i].clone();
                let ghost out_pre = out@;
                out.push(c);
                proof {
                    assert(out@.map_values(|c: CredentialRecord| c@) =~= out_pre.map_values(
                        |c: CredentialRecord| c@,
                    ).push(self.creds_seq()[i as int]));
                    assert(creds_with_user(rest, username@) =~= seq![rest.first()]
                        + creds_with_user(rest.drop_first(), username@));
                    assert(self.creds_of_user(username@) =~= out@.map_values(
                        |c: CredentialRecord| c@,
                    ) + creds_with_user(self.creds_seq().skip(i as int + 1), username@));
                }
            } else {
                proof {
                    assert(creds_with_user(rest, username@) == creds_with_user(
                        rest.drop_first(),
                        username@,
                    ));
                }
            }
            i = i + 1;
        }
        proof {
            assert(self.creds_seq().skip(i as int).len() == 0);
            assert(creds_with_user(self.creds_seq().skip(i as int), username@)
                =~= Seq::<CredentialRecordV>::empty());
            assert(self.creds_of_user(username@) =~= out@.map_values(|c: CredentialRecord| c@));
        }
        out
    }

    /// The one credential stored under `credential_id`, or `NotFound`.
    pub fn find_by_credential_id(&self, credential_id: &Vec<u8>) -> (r: Result<
        CredentialRecord,
        Error,
    >)
        requires
            self.wf(),
        ensures
            match r {
                Ok(c) => self.has_cred(credential_id@) && c@ == self.cred_of(credential_id@),
                Err(e) => e == Error::NotFound && !self.has_cred(credential_id@),
            },
    {
        match self.find_cred_index(credential_id) {
            Some(i) => {
                proof {
                    lemma_cred_at(self.creds_seq(), credential_id@, i as int);
                }
                Ok(self.credentials[i].clone())
            },
            None => Err(Error::NotFound),
        }
    }

    /// What one counter refresh does: it succeeds exactly when the
    /// credential exists and the reported counter is strictly greater than
    /// the stored one, overwriting the blob and the counter of that one row;
    /// a non-increasing counter is surfaced as `Verification` (a possible
    /// cloned-credential signal) and changes nothing.
    pub open spec fn counter_updated(
        pre: Self,
        post: Self,
        cred_id: Seq<u8>,
        data: Seq<char>,
        counter: u32,
        r: Result<(), Error>,
    ) -> bool {
        &&& (r is Ok <==> pre.has_cred(cred_id) && counter > pre.cred_of(cred_id).counter)
        &&& (!pre.has_cred(cred_id) ==> r == Err::<(), Error>(Error::NotFound))
        &&& (pre.has_cred(cred_id) && counter <= pre.cred_of(cred_id).counter ==> r == Err::<
            (),
            Error,
        >(Error::Verification))
        &&& (r is Ok ==> {
            &&& forall|k: Seq<u8>| #[trigger] post.has_cred(k) <==> pre.has_cred(k)
            &&& post.cred_of(cred_id) == (CredentialRecordV {
                data,
                counter,
                ..pre.cred_of(cred_id)
            })
            &&& forall|k: Seq<u8>|
                k != cred_id && post.has_cred(k) ==> #[trigger] post.cred_of(k) == pre.cred_of(k)
            &&& post.users_seq() == pre.users_seq()
            &&& post.sessions_seq() == pre.sessions_seq()
            &&& post.tasks_seq() == pre.tasks_seq()
        })
        &&& (r is Err ==> post == pre)
    }

    /// Refresh the stored blob and signature counter of one credential,
    /// only ever forward.
    pub fn update_counter(&mut self, credential_id: &Vec<u8>, data: String, counter: u32) -> (r:
        Result<(), Error>)
        requires
            old(self).wf(),
        ensures
            final(self).wf(),
            Self::counter_updated(*old(self), *final(self), credential_id@, data@, counter, r),
    {
        match self.find_cred_index(credential_id) {
            None => Err(Error::NotFound),
            Some(i) => {
                proof {
                    lemma_cred_at(self.creds_seq(), credential_id@, i as int);
                }
                if counter <= self.credentials[i].counter {
                    return Err(Error::Verification);
                }
                let ghost pre = *self;
                let username = self.credentials[i].username.clone();
                let id_copy = self.credentials[i].clone();
                let rec = CredentialRecord {
                    credential_id: id_copy.credential_id,
                    data,
                    username,
                    counter,
                };
                proof {
                    lemma_cred_update(pre.creds_seq(), i as int, rec@);
                }
                self.credentials.remove(i);
                self.credentials.insert(i, rec);
                proof {
                    assert(self.creds_seq() =~= pre.creds_seq().update(
                        i as int,
                        self.creds_seq()[i as int],
                    ));
                    assert forall|j: int| 0 <= j < self.creds_seq().len() implies self.user_exists(
                        (#[trigger] self.creds_seq()[j]).username,
                    ) by {
                        if j != i {
                            assert(self.creds_seq()[j] == pre.creds_seq()[j]);
                        }
                        assert(pre.user_exists(pre.creds_seq()[j].username));
                    }
                }
                Ok(())
            },
        }
    }

    /// Mint a session for `username`: the referential rule demands an
    /// existing user, and the token id must be fresh.
    pub fn issue(&mut self, username: &String, id: u128) -> (r: Result<u128, Error>)
        requires
            old(self).wf(),
        ensures
            final(self).wf(),
            r is Ok <==> old(self).user_exists(username@) && !old(self).has_session(id),
            !old(self).user_exists(username@) ==> r == Err::<u128, Error>(Error::NotFound),
            old(self).user_exists(username@) && old(self).has_session(id) ==> r == Err::<
                u128,
                Error,
            >(Error::Conflict),
            match r {
                Ok(out) => {
                    &&& out == id
                    &&& forall|k: u128|
                        #[trigger] final(self).has_session(k) <==> old(self).has_session(k) || k
                            == id
                    &&& final(self).session_user(id) == username@
                    &&& forall|k: u128|
                        k != id && final(self).has_session(k)
                            ==> #[trigger] final(self).session_user(k) == old(self).session_user(k)
                    &&& final(self).users_seq() == old(self).users_seq()
                    &&& final(self).creds_seq() == old(self).creds_seq()
                    &&& final(self).tasks_seq() == old(self).tasks_seq()
                },
                Err(_) => *final(self) == *old(self),
            },
    {
        if self.find_user_index(username).is_none() {
            return Err(Error::NotFound);
        }
        if self.find_session_index(id).is_some() {
            return Err(Error::Conflict);
        }
        let rec = SessionRecord { id, username: username.clone() };
        let ghost pre = *self;
        proof {
            lemma_session_push(pre.sessions_seq(), rec@);
        }
        self.sessions.push(rec);
        proof {
            assert(self.sessions_seq() =~= pre.sessions_seq().push(
                self.sessions_seq()[pre.sessions_seq().len() as int],
            ));
            assert forall|k: u128| #[trigger] self.has_session(k) implies pre.has_session(k) || k
                == id by {
                assert(sseq_has(pre.sessions_seq().push(
                    self.sessions_seq()[pre.sessions_seq().len() as int],
                ), k));
            }
            assert forall|j: int| 0 <= j < self.sessions_seq().len() implies self.user_exists(
                (#[trigger] self.sessions_seq()[j]).username,
            ) by {
                if j < pre.sessions_seq().len() {
                    assert(self.sessions_seq()[j] == pre.sessions_seq()[j]);
                    assert(pre.user_exists(pre.sessions_seq()[j].username));
                }
            }
        }
        Ok(id)
    }

    /// Resolve a session token back to its owning user, or `NotFound`. A
    /// session is valid until its backing record is deleted; there is no
    /// expiry.
    pub fn verify(&self, session_id: u128) -> (r: Result<User, Error>)
        requires
            self.wf(),
        ensures
            match r {
                Ok(u) => {
                    &&& self.has_session(session_id)
                    &&& u@.name == self.session_user(session_id)
                    &&& self.user_exists(u@.name)
                    &&& u@ == self.user_of(u@.name)
                },
                Err(e) => e == Error::NotFound && !self.has_session(session_id),
            },
    {
        match self.find_session_index(session_id) {
            None => Err(Error::NotFound),
            Some(i) => {
                proof {
                    lemma_session_at(self.sessions_seq(), session_id, i as int);
                }
                match self.find_user_index(&self.sessions[i].username) {
                    Some(j) => {
                        proof {
                            lemma_user_at(
                                self.users_seq(),
                                self.sessions_seq()[i as int].username,
                                j as int,
                            );
                        }
                        Ok(self.users[j].clone())
                    },
                    None => {
                        proof {
                            assert(self.user_exists(self.sessions_seq()[i as int].username));
                            assert(false);
                        }
                        Err(Error::NotFound)
                    },
                }
            },
        }
    }

    /// The index of the task row with `id`, if any.
    fn find_task_index(&self, id: u128) -> (r: Option<usize>)
        ensures
            match r {
                Some(i) => i < self.tasks_seq().len() && self.tasks_seq()[i as int].task.id == id,
                None => !self.has_task(id),
            },
    {
        let mut i: usize = 0;
        while i < self.tasks.len()
            invariant
                i <= self.tasks_seq().len(),
                forall|j: int| 0 <= j < i ==> (#[trigger] self.tasks_seq()[j]).task.id != id,
            decreases self.tasks_seq().len() - i,
        {
            if self.tasks[i].task.id == id {
                return Some(i);
            }
            i = i + 1;
        }
        None
    }

    /// The tasks owned by `username`, in creation order.
    pub fn tasks(&self, username: &String) -> (r: Vec<Task>)
        ensures
            r@.map_values(|t: Task| t@) == self.tasks_of_user(username@),
    {
        let mut out: Vec<Task> = Vec::new();
        let mut i: usize = 0;
        proof {
            assert(self.tasks_seq().skip(0) =~= self.tasks_seq());
        }
        while i < self.tasks.len()
            invariant
                i <= self.tasks_seq().len(),
                self.tasks_of_user(username@) =~= out@.map_values(|t: Task| t@)
                    + tasks_with_user(self.tasks_seq().skip(i as int), username@),
            decreases self.tasks_seq().len() - i,
        {
            let ghost rest = self.tasks_seq().skip(i as int);
            proof {
                assert(rest.len() > 0);
                assert(rest.first() == self.tasks_seq()[i as int]);
                assert(rest.drop_first() =~= self.tasks_seq().skip(i as int + 1));
            }
            if self.tasks[i].username == *username {
                let t = self.tasks[i].task.clone();
                let ghost out_pre = out@;
                out.push(t);
                proof {
                    assert(out@.map_values(|t: Task| t@) =~= out_pre.map_values(
                        |t: Task| t@,
                    ).push(self.tasks_seq()[i as int].task));
                    assert(self.tasks_of_user(username@) =~= out@.map_values(|t: Task| t@)
                        + tasks_with_user(self.tasks_seq().skip(i as int + 1), username@));
                }
            }
            i = i + 1;
        }
        proof {
            assert(self.tasks_seq().skip(i as int).len() == 0);
            assert(tasks_with_user(self.tasks_seq().skip(i as int), username@) =~= Seq::<
                TaskV,
            >::empty());
            assert(self.tasks_of_user(username@) =~= out@.map_values(|t: Task| t@));
        }
        out
    }

    /// One pass of `tasks_sorted`: the tasks owned by `username` with
    /// `completed == done`, in creation order, appended to `out`.
    fn push_tasks_done(&self, username: &String, done: bool, out: &mut Vec<Task>)
        ensures
            final(out)@.map_values(|t: Task| t@) == old(out)@.map_values(|t: Task| t@)
                + self.tasks_of_user_done(username@, done),
    {
        let mut i: usize = 0;
        proof {
            assert(self.tasks_seq().skip(0) =~= self.tasks_seq());
            assert(old(out)@.map_values(|t: Task| t@) + self.tasks_of_user_done(username@, done)
                =~= out@.map_values(|t: Task| t@) + tasks_with_user_done(
                self.tasks_seq().skip(0),
                username@,
                done,
            ));
        }
        while i < self.tasks.len()
            invariant
                i <= self.tasks_seq().len(),
                old(out)@.map_values(|t: Task| t@) + self.tasks_of_user_done(username@, done)
                    =~= out@.map_values(|t: Task| t@) + tasks_with_user_done(
                    self.tasks_seq().skip(i as int),
                    username@,
                    done,
                ),
            decreases self.tasks_seq().len() - i,
        {
            let ghost rest = self.tasks_seq().skip(i as int);
            proof {
                assert(rest.len() > 0);
                assert(rest.first() == self.tasks_seq()[i as int]);
                assert(rest.drop_first() =~= self.tasks_seq().skip(i as int + 1));
            }
            if self.tasks[i].username == *username && self.tasks[i].task.completed == done {
                let t = self.tasks[i].task.clone();
                let ghost out_pre = out@;
                out.push(t);
                proof {
                    assert(out@.map_values(|t: Task| t@) =~= out_pre.map_values(
                        |t: Task| t@,
                    ).push(self.tasks_seq()[i as int].task));
                }
            }
            i = i + 1;
        }
        proof {
            assert(self.tasks_seq().skip(i as int).len() == 0);
            assert(tasks_with_user_done(self.tasks_seq().skip(i as int), username@, done)
                =~= Seq::<TaskV>::empty());
            assert(final(out)@.map_values(|t: Task| t@) =~= old(out)@.map_values(|t: Task| t@)
                + self.tasks_of_user_done(username@, done));
        }
    }

    /// The tasks owned by `username`, the pending ones first, then the
    /// completed ones, each group in creation order.
    pub fn tasks_sorted(&self, username: &String) -> (r: Vec<Task>)
        ensures
            r@.map_values(|t: Task| t@) == self.tasks_of_user_done(username@, false)
                + self.tasks_of_user_done(username@, true),
    {
        let mut out: Vec<Task> = Vec::new();
        self.push_tasks_done(username, false, &mut out);
        self.push_tasks_done(username, true, &mut out);
        proof {
            assert(Seq::<TaskV>::empty() + self.tasks_of_user_done(username@, false)
                =~= self.tasks_of_user_done(username@, false));
            assert(out@.map_values(|t: Task| t@) =~= self.tasks_of_user_done(username@, false)
                + self.tasks_of_user_done(username@, true));
        }
        out
    }

    /// Create one pending task for `username`.
    pub fn add_task(&mut self, name: String, username: &String, id: u128) -> (r: Result<
        Task,
        Error,
    >)
        requires
            old(self).wf(),
        ensures
            final(self).wf(),
            r is Ok <==> old(self).user_exists(username@) && !old(self).has_task(id),
            !old(self).user_exists(username@) ==> r == Err::<Task, Error>(Error::NotFound),
            old(self).user_exists(username@) && old(self).has_task(id) ==> r == Err::<Task, Error>(
                Error::Conflict,
            ),
            match r {
                Ok(t) => {
                    &&& t@ == (TaskV { name: name@, completed: false, id })
                    &&& final(self).tasks_seq() == old(self).tasks_seq().push(
                        TaskRowV { task: t@, username: username@ },
                    )
                    &&& forall|k: u128|
                        #[trigger] final(self).has_task(k) <==> old(self).has_task(k) || k == id
                    &&& final(self).task_of(id) == (TaskRowV { task: t@, username: username@ })
                    &&& forall|k: u128|
                        k != id && final(self).has_task(k) ==> #[trigger] final(self).task_of(k)
                            == old(self).task_of(k)
                    &&& final(self).users_seq() == old(self).users_seq()
                    &&& final(self).creds_seq() == old(self).creds_seq()
                    &&& final(self).sessions_seq() == old(self).sessions_seq()
                },
                Err(_) => *final(self) == *old(self),
            },
    {
        if self.find_user_index(username).is_none() {
            return Err(Error::NotFound);
        }
        if self.find_task_index(id).is_some() {
            return Err(Error::Conflict);
        }
        let task = Task { name, completed: false, id };
        let row = TaskRow { task: task.clone(), username: username.clone() };
        let ghost pre = *self;
        proof {
            lemma_task_push(pre.tasks_seq(), row@);
        }
        self.tasks.push(row);
        proof {
            assert(self.tasks_seq() =~= pre.tasks_seq().push(
                self.tasks_seq()[pre.tasks_seq().len() as int],
            ));
            assert forall|k: u128| #[trigger] self.has_task(k) implies pre.has_task(k) || k
                == id by {
                assert(tseq_has(pre.tasks_seq().push(
                    self.tasks_seq()[pre.tasks_seq().len() as int],
                ), k));
            }
            assert forall|j: int| 0 <= j < self.tasks_seq().len() implies self.user_exists(
                (#[trigger] self.tasks_seq()[j]).username,
            ) by {
                if j < pre.tasks_seq().len() {
                    assert(self.tasks_seq()[j] == pre.tasks_seq()[j]);
                    assert(pre.user_exists(pre.tasks_seq()[j].username));
                }
            }
        }
        Ok(task)
    }

    /// Set the `completed` flag of the task `id` owned by `username` to the
    /// opposite of the reported current value. A task that does not exist or
    /// belongs to someone else leaves the store untouched.
    pub fn set_checked(&mut self, username: &String, id: u128, completed: bool) -> (r: bool)
        requires
            old(self).wf(),
        ensures
            final(self).wf(),
            r <==> old(self).has_task(id) && old(self).task_of(id).username == username@,
            r ==> {
                &&& forall|k: u128| #[trigger] final(self).has_task(k) <==> old(self).has_task(k)
                &&& final(self).task_of(id) == (TaskRowV {
                    task: TaskV { completed: !completed, ..old(self).task_of(id).task },
                    username: old(self).task_of(id).username,
                })
                &&& forall|k: u128|
                    k != id && final(self).has_task(k) ==> #[trigger] final(self).task_of(k) == old(
                        self,
                    ).task_of(k)
                &&& final(self).users_seq() == old(self).users_seq()
                &&& final(self).creds_seq() == old(self).creds_seq()
                &&& final(self).sessions_seq() == old(self).sessions_seq()
            },
            !r ==> *final(self) == *old(self),
    {
        match self.find_task_index(id) {
            None => false,
            Some(i) => {
                proof {
                    lemma_task_at(self.tasks_seq(), id, i as int);
                }
                if !(self.tasks[i].username == *username) {
                    return false;
                }
                let ghost pre = *self;
                let name_copy = self.tasks[i].task.name.clone();
                let owner_copy = self.tasks[i].username.clone();
                let row = TaskRow {
                    task: Task { name: name_copy, completed: !completed, id },
                    username: owner_copy,
                };
                proof {
                    lemma_task_update(pre.tasks_seq(), i as int, row@);
                }
                self.tasks.remove(i);
                self.tasks.insert(i, row);
                proof {
                    assert(self.tasks_seq() =~= pre.tasks_seq().update(
                        i as int,
                        self.tasks_seq()[i as int],
                    ));
                    assert forall|j: int| 0 <= j < self.tasks_seq().len() implies self.user_exists(
                        (#[trigger] self.tasks_seq()[j]).username,
                    ) by {
                        if j != i {
                            assert(self.tasks_seq()[j] == pre.tasks_seq()[j]);
                        }
                        assert(pre.user_exists(pre.tasks_seq()[j].username));
                    }
                }
                true
            },
        }
    }

    /// Delete the task `id` owned by `username`; reports whether a row was
    /// removed, so callers can tell a no-op from a deletion.
    pub fn delete_task(&mut self, username: &String, id: u128) -> (r: bool)
        requires
            old(self).wf(),
        ensures
            final(self).wf(),
            r <==> old(self).has_task(id) && old(self).task_of(id).username == username@,
            r ==> {
                &&& final(self).tasks_seq() == old(self).tasks_seq().remove(
                    tseq_idx(old(self).tasks_seq(), id),
                )
                &&& !final(self).has_task(id)
                &&& forall|k: u128|
                    k != id ==> (#[trigger] final(self).has_task(k) <==> old(self).has_task(k))
                &&& forall|k: u128|
                    k != id && final(self).has_task(k) ==> #[trigger] final(self).task_of(k) == old(
                        self,
                    ).task_of(k)
                &&& final(self).users_seq() == old(self).users_seq()
                &&& final(self).creds_seq() == old(self).creds_seq()
                &&& final(self).sessions_seq() == old(self).sessions_seq()
            },
            !r ==> *final(self) == *old(self),
    {
        match self.find_task_index(id) {
            None => false,
            Some(i) => {
                proof {
                    lemma_task_at(self.tasks_seq(), id, i as int);
                }
                if !(self.tasks[i].username == *username) {
                    return false;
                }
                let ghost pre = *self;
                proof {
                    lemma_task_remove(pre.tasks_seq(), i as int);
                }
                self.tasks.remove(i);
                proof {
                    assert(self.tasks_seq() =~= pre.tasks_seq().remove(i as int));
                    assert forall|j: int| 0 <= j < self.tasks_seq().len() implies self.user_exists(
                        (#[trigger] self.tasks_seq()[j]).username,
                    ) by {
                        let j0 = if j < i { j } else { j + 1 };
                        assert(self.tasks_seq()[j] == pre.tasks_seq()[j0]);
                        assert(pre.user_exists(pre.tasks_seq()[j0].username));
                    }
                }
                true
            },
        }
    }

    /// No stored signature counter decreases across an insertion.
    pub proof fn lemma_insert_counters_monotone(
        pre: Self,
        post: Self,
        cred_id: Seq<u8>,
        data: Seq<char>,
        username: Seq<char>,
        counter: u32,
        r: Result<(), Error>,
    )
        requires
            Self::inserted(pre, post, cred_id, data, username, counter, r),
        ensures
            forall|k: Seq<u8>|
                pre.has_cred(k) && #[trigger] post.has_cred(k) ==> post.cred_of(k).counter
                    >= pre.cred_of(k).counter,
    {
        if r is Ok {
            assert forall|k: Seq<u8>| pre.has_cred(k) && #[trigger] post.has_cred(k) implies post
                .cred_of(k).counter >= pre.cred_of(k).counter by {
                assert(k != cred_id);
            }
        }
    }

    /// No stored signature counter decreases across a counter refresh: the
    /// touched credential only moves strictly forward, every other is
    /// untouched, and a non-increasing report is rejected outright.
    pub proof fn lemma_update_counters_monotone(
        pre: Self,
        post: Self,
        cred_id: Seq<u8>,
        data: Seq<char>,
        counter: u32,
        r: Result<(), Error>,
    )
        requires
            Self::counter_updated(pre, post, cred_id, data, counter, r),
        ensures
            forall|k: Seq<u8>|
                pre.has_cred(k) && #[trigger] post.has_cred(k) ==> post.cred_of(k).counter
                    >= pre.cred_of(k).counter,
    {
    }

    /// Registering two credentials for one username: two distinct ids both
    /// succeed, while reusing the first id fails with `Conflict` on the
    /// second attempt.
    pub proof fn lemma_register_twice(
        db0: Self,
        db1: Self,
        db2: Self,
        id1: Seq<u8>,
        id2: Seq<u8>,
        d1: Seq<char>,
        d2: Seq<char>,
        username: Seq<char>,
        c1: u32,
        c2: u32,
        r1: Result<(), Error>,
        r2: Result<(), Error>,
    )
        requires
            Self::inserted(db0, db1, id1, d1, username, c1, r1),
            r1 is Ok,
            Self::inserted(db1, db2, id2, d2, username, c2, r2),
        ensures
            id2 == id1 ==> r2 == Err::<(), Error>(Error::Conflict),
            id2 != id1 && !db0.has_cred(id2) ==> r2 is Ok,
    {
    }
}

} // verus!
