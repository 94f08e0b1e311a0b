//! The keyspace store: a mapping from key to value with optional absolute
//! expiration, plus the immutable process configuration. A key whose
//! expiration time is at or before the current time is logically absent;
//! physical removal is lazy (on `get`) or batched (on `keys`).
use vstd::prelude::*;

use crate::command::lower;
use crate::resp::{copy_bytes, push_bytes};

verus! {

/// The two optional process settings, resolved once at startup.
pub struct Config {
    dir: Option<Vec<u8>>,
    dbfilename: Option<Vec<u8>>,
}

/// The mathematical model of a `Config`.
pub struct ConfigView {
    pub dir: Option<Seq<u8>>,
    pub dbfilename: Option<Seq<u8>>,
}

impl View for Config {
    type V = ConfigView;

    closed spec fn view(&self) -> ConfigView {
        ConfigView { dir: self.dir.deep_view(), dbfilename: self.dbfilename.deep_view() }
    }
}

/// The bytes of `dir`.
pub open spec fn name_dir() -> Seq<u8> {
    seq![100u8, 105u8, 114u8]
}

/// The bytes of `dbfilename`.
pub open spec fn name_dbfilename() -> Seq<u8> {
    seq![100u8, 98u8, 102u8, 105u8, 108u8, 101u8, 110u8, 97u8, 109u8, 101u8]
}

/// The bytes of `--dir`.
pub open spec fn flag_dir() -> Seq<u8> {
    seq![45u8, 45u8, 100u8, 105u8, 114u8]
}

/// The bytes of `--dbfilename`.
pub open spec fn flag_dbfilename() -> Seq<u8> {
    seq![45u8, 45u8, 100u8, 98u8, 102u8, 105u8, 108u8, 101u8, 110u8, 97u8, 109u8, 101u8]
}

/// The configuration that scanning the arguments from index `i` onward
/// leaves, starting from `c`. A flag consumes the following argument as
/// its value (so that value is never read as a flag); a flag in last
/// position clears its setting; a later flag wins over an earlier one.
pub open spec fn scan_args(args: Seq<Seq<u8>>, i: int, c: ConfigView) -> ConfigView
    decreases args.len() - i,
{
    if i < 0 || i >= args.len() {
        c
    } else if lower(args[i]) == flag_dir() {
        if i + 1 < args.len() {
            scan_args(args, i + 2, ConfigView { dir: Some(args[i + 1]), ..c })
        } else {
            ConfigView { dir: None, ..c }
        }
    } else if lower(args[i]) == flag_dbfilename() {
        if i + 1 < args.len() {
            scan_args(args, i + 2, ConfigView { dbfilename: Some(args[i + 1]), ..c })
        } else {
            ConfigView { dbfilename: None, ..c }
        }
    } else {
        scan_args(args, i + 1, c)
    }
}

/// The setting named by `key`, compared case-insensitively.
pub open spec fn config_lookup(c: ConfigView, key: Seq<u8>) -> Option<Seq<u8>> {
    if lower(key) == name_dir() {
        c.dir
    } else if lower(key) == name_dbfilename() {
        c.dbfilename
    } else {
        None
    }
}

/// The snapshot file path `dir/dbfilename`, when both settings are present.
pub open spec fn file_path_view(c: ConfigView) -> Option<Seq<u8>> {
    if c.dir is Some && c.dbfilename is Some {
        Some(c.dir.unwrap() + seq![47u8] + c.dbfilename.unwrap())
    } else {
        None
    }
}

impl Config {
    /// An empty configuration: neither setting present.
    pub fn new() -> (c: Config)
        ensures
            c@.dir is None,
            c@.dbfilename is None,
    {
        Config { dir: None, dbfilename: None }
    }

    /// A configuration holding the two settings as given.
    pub fn from_parts(dir: Option<Vec<u8>>, dbfilename: Option<Vec<u8>>) -> (c: Config)
        ensures
            c@.dir == dir.deep_view(),
            c@.dbfilename == dbfilename.deep_view(),
    {
        Config { dir, dbfilename }
    }

    /// Scans command-line arguments for `--dir` and `--dbfilename`,
    /// case-insensitively, each taking the following argument as its value.
    pub fn from_args(&mut self, args: &Vec<Vec<u8>>)
        ensures
            final(self)@ == scan_args(args.deep_view(), 0, old(self)@),
    {
        let ghost av = args.deep_view();
        proof {
            assert(av.len() == args@.len());
            assert(forall|p: int| 0 <= p < av.len() ==> av[p] =~= #[trigger] args@[p]@);
        }
        let dir_flag: [u8; 5] = [45, 45, 100, 105, 114];
        let dbfilename_flag: [u8; 12] = [45, 45, 100, 98, 102, 105, 108, 101, 110, 97, 109, 101];
        proof {
            assert(lower(dir_flag@) =~= flag_dir());
            assert(lower(dbfilename_flag@) =~= flag_dbfilename());
        }
        let mut i: usize = 0;
        while i < args.len()
            invariant
                av == args.deep_view(),
                av.len() == args@.len(),
                forall|p: int| 0 <= p < av.len() ==> av[p] == #[trigger] args@[p]@,
                i <= av.len(),
                lower(dir_flag@) == flag_dir(),
                lower(dbfilename_flag@) == flag_dbfilename(),
                scan_args(av, 0, old(self)@) == scan_args(av, i as int, self@),
            decreases av.len() - i,
        {
            if crate::command::eq_fold(&args[i], dir_flag.as_slice()) {
                if i + 1 < args.len() {
                    self.dir = Some(copy_bytes(&args[i + 1]));
                    i = i + 2;
                } else {
                    self.dir = None;
                    i = i + 1;
                }
            } else if crate::command::eq_fold(&args[i], dbfilename_flag.as_slice()) {
                if i + 1 < args.len() {
                    self.dbfilename = Some(copy_bytes(&args[i + 1]));
                    i = i + 2;
                } else {
                    self.dbfilename = None;
                    i = i + 1;
                }
            } else {
                i = i + 1;
            }
        }
    }

    /// Looks a setting up by name, case-insensitively.
    pub fn get(&self, key: &Vec<u8>) -> (r: Option<Vec<u8>>)
        ensures
            r.deep_view() == config_lookup(self@, key@),
    {
        let dir_pat: [u8; 3] = [100, 105, 114];
        let dbfilename_pat: [u8; 10] = [100, 98, 102, 105, 108, 101, 110, 97, 109, 101];
        proof {
            assert(lower(dir_pat@) =~= name_dir());
            assert(lower(dbfilename_pat@) =~= name_dbfilename());
        }
        if crate::command::eq_fold(key, dir_pat.as_slice()) {
            match &self.dir {
                Some(d) => Some(copy_bytes(d)),
                None => None,
            }
        } else if crate::command::eq_fold(key, dbfilename_pat.as_slice()) {
            match &self.dbfilename {
                Some(d) => Some(copy_bytes(d)),
                None => None,
            }
        } else {
            None
        }
    }

    /// The snapshot file path `dir/dbfilename`, when both settings are
    /// present; the snapshot load is skipped otherwise.
    pub fn get_file_path(&self) -> (r: Option<Vec<u8>>)
        ensures
            r.deep_view() == file_path_view(self@),
    {
        match (&self.dir, &self.dbfilename) {
            (Some(d), Some(f)) => {
                let mut out = copy_bytes(d);
                out.push(47);
                push_bytes(&mut out, f);
                proof {
                    assert(out@ =~= self@.dir.unwrap() + seq![47u8] + self@.dbfilename.unwrap());
                }
                Some(out)
            },
            _ => None,
        }
    }
}

/// One stored value with its optional absolute expiration time in
/// milliseconds since the Unix epoch; `None` never expires.
pub struct StoredEntry {
    pub value: Vec<u8>,
    pub expires_at: Option<u64>,
}

/// The mathematical model of a `StoredEntry`.
pub struct EntryView {
    pub value: Seq<u8>,
    pub expires_at: Option<u64>,
}

impl View for StoredEntry {
    type V = EntryView;

    open spec fn view(&self) -> EntryView {
        EntryView { value: self.value@, expires_at: self.expires_at }
    }
}

/// An entry is live at `now`: no expiry, or an expiry strictly in the future.
pub open spec fn live(e: EntryView, now: u64) -> bool {
    match e.expires_at {
        None => true,
        Some(t) => now < t,
    }
}

/// One key with its stored entry.
struct Slot {
    key: Vec<u8>,
    entry: StoredEntry,
}

/// The mapping denoted by a slot sequence; a later slot wins on equal keys.
spec fn slots_map(s: Seq<Slot>) -> Map<Seq<u8>, EntryView>
    decreases s.len(),
{
    if s.len() == 0 {
        Map::empty()
    } else {
        slots_map(s.drop_last()).insert(s.last().key@, s.last().entry@)
    }
}

/// No two slots share a key.
spec fn keys_unique(s: Seq<Slot>) -> bool {
    forall|i: int, j: int| 0 <= i < j < s.len() ==> s[i].key@ != s[j].key@
}

/// A key is in the mapping exactly when some slot holds it.
proof fn lemma_slots_map_contains(s: Seq<Slot>, k: Seq<u8>)
    ensures
        slots_map(s).dom().contains(k) <==> (exists|i: int|
            0 <= i < s.len() && s[i].key@ == k),
    decreases s.len(),
{
    if s.len() > 0 {
        lemma_slots_map_contains(s.drop_last(), k);
        if s.last().key@ == k {
            assert(s[s.len() - 1].key@ == k);
        } else {
            if exists|i: int| 0 <= i < s.len() && s[i].key@ == k {
                let i = choose|i: int| 0 <= i < s.len() && s[i].key@ == k;
                assert(0 <= i < s.len() - 1 && s.drop_last()[i].key@ == k);
            }
            if exists|i: int| 0 <= i < s.len() - 1 && s.drop_last()[i].key@ == k {
                let i = choose|i: int| 0 <= i < s.len() - 1 && s.drop_last()[i].key@ == k;
                assert(s[i].key@ == k);
            }
        }
    }
}

/// With unique keys, each slot's entry is what the mapping holds for its key.
proof fn lemma_slots_map_index(s: Seq<Slot>, i: int)
    requires
        keys_unique(s),
        0 <= i < s.len(),
    ensures
        slots_map(s).dom().contains(s[i].key@),
        slots_map(s)[s[i].key@] == s[i].entry@,
    decreases s.len(),
{
    if i < s.len() - 1 {
        assert(keys_unique(s.drop_last()));
        assert(s.drop_last()[i].key@ == s[i].key@);
        lemma_slots_map_index(s.drop_last(), i);
        assert(s[i].key@ != s.last().key@);
    }
}

/// Replacing the slot that holds a key updates the mapping at that key.
proof fn lemma_slots_map_update(s: Seq<Slot>, i: int, slot: Slot)
    requires
        keys_unique(s),
        0 <= i < s.len(),
        slot.key@ == s[i].key@,
    ensures
        slots_map(s.update(i, slot)) == slots_map(s).insert(slot.key@, slot.entry@),
        keys_unique(s.update(i, slot)),
    decreases s.len(),
{
    let t = s.update(i, slot);
    assert(forall|j: int| 0 <= j < s.len() && j != i ==> t[j] == s[j]);
    if i == s.len() - 1 {
        assert(t.drop_last() =~= s.drop_last());
        assert(slots_map(t) == slots_map(s.drop_last()).insert(slot.key@, slot.entry@));
        assert(slots_map(s.drop_last()).insert(slot.key@, slot.entry@) =~= slots_map(s).insert(
            slot.key@,
            slot.entry@,
        ));
    } else {
        assert(keys_unique(s.drop_last()));
        assert(t.drop_last() =~= s.drop_last().update(i, slot));
        assert(s.drop_last()[i].key@ == s[i].key@);
        lemma_slots_map_update(s.drop_last(), i, slot);
        assert(s[i].key@ != s.last().key@);
        assert(slots_map(t) == slots_map(s.drop_last()).insert(slot.key@, slot.entry@).insert(
            s.last().key@,
            s.last().entry@,
        ));
        assert(slots_map(s.drop_last()).insert(slot.key@, slot.entry@).insert(
            s.last().key@,
            s.last().entry@,
        ) =~= slots_map(s).insert(slot.key@, slot.entry@));
    }
}

/// Removing the slot that holds a key removes that key from the mapping.
proof fn lemma_slots_map_remove(s: Seq<Slot>, i: int)
    requires
        keys_unique(s),
        0 <= i < s.len(),
    ensures
        slots_map(s.remove(i)) == slots_map(s).remove(s[i].key@),
        keys_unique(s.remove(i)),
    decreases s.len(),
{
    let t = s.remove(i);
    assert(forall|j: int| 0 <= j < i ==> t[j] == s[j]);
    assert(forall|j: int| i <= j < s.len() - 1 ==> t[j] == s[j + 1]);
    if i == s.len() - 1 {
        assert(t =~= s.drop_last());
        lemma_slots_map_contains(s.drop_last(), s[i].key@);
        assert(forall|j: int| 0 <= j < s.len() - 1 ==> s.drop_last()[j].key@ != s[i].key@);
        assert(slots_map(s.drop_last()) =~= slots_map(s).remove(s[i].key@));
    } else {
        assert(keys_unique(s.drop_last()));
        assert(t.drop_last() =~= s.drop_last().remove(i));
        assert(s.drop_last()[i].key@ == s[i].key@);
        lemma_slots_map_remove(s.drop_last(), i);
        assert(s[i].key@ != s.last().key@);
        assert(slots_map(t) == slots_map(s.drop_last()).remove(s[i].key@).insert(
            s.last().key@,
            s.last().entry@,
        ));
        assert(slots_map(s.drop_last()).remove(s[i].key@).insert(s.last().key@, s.last().entry@)
            =~= slots_map(s).remove(s[i].key@));
    }
}

/// The result of a lookup: the value when the key is present and live.
pub open spec fn get_result(kv: Map<Seq<u8>, EntryView>, k: Seq<u8>, now: u64) -> Option<Seq<u8>> {
    if kv.dom().contains(k) && live(kv[k], now) {
        Some(kv[k].value)
    } else {
        None
    }
}

/// The mapping after a lookup: an expired key is removed, nothing else moves.
pub open spec fn get_post(kv: Map<Seq<u8>, EntryView>, k: Seq<u8>, now: u64) -> Map<
    Seq<u8>,
    EntryView,
> {
    if kv.dom().contains(k) && !live(kv[k], now) {
        kv.remove(k)
    } else {
        kv
    }
}

/// The mapping restricted to its live entries.
pub open spec fn prune(kv: Map<Seq<u8>, EntryView>, now: u64) -> Map<Seq<u8>, EntryView> {
    Map::new(|k: Seq<u8>| kv.dom().contains(k) && live(kv[k], now), |k: Seq<u8>| kv[k])
}

/// Lexicographic byte order: `a` at or before `b`.
pub open spec fn lex_le(a: Seq<u8>, b: Seq<u8>) -> bool
    decreases a.len(),
{
    if a.len() == 0 {
        true
    } else if b.len() == 0 {
        false
    } else if a[0] < b[0] {
        true
    } else if a[0] > b[0] {
        false
    } else {
        lex_le(a.drop_first(), b.drop_first())
    }
}

/// Lexicographic order is total.
pub proof fn lemma_lex_le_total(a: Seq<u8>, b: Seq<u8>)
    ensures
        lex_le(a, b) || lex_le(b, a),
    decreases a.len(),
{
    if a.len() > 0 && b.len() > 0 && a[0] == b[0] {
        lemma_lex_le_total(a.drop_first(), b.drop_first());
    }
}

/// Lexicographic order is transitive.
pub proof fn lemma_lex_le_trans(a: Seq<u8>, b: Seq<u8>, c: Seq<u8>)
    requires
        lex_le(a, b),
        lex_le(b, c),
    ensures
        lex_le(a, c),
    decreases a.len(),
{
    if a.len() > 0 && b.len() > 0 && c.len() > 0 && a[0] == b[0] && b[0] == c[0] {
        lemma_lex_le_trans(a.drop_first(), b.drop_first(), c.drop_first());
    }
}

/// Ascending in lexicographic byte order.
pub open spec fn sorted_lex(s: Seq<Seq<u8>>) -> bool {
    forall|i: int, j: int| 0 <= i < j < s.len() ==> lex_le(s[i], s[j])
}

/// Compares two byte strings lexicographically.
fn lex_le_bytes(a: &Vec<u8>, b: &Vec<u8>) -> (r: bool)
    ensures
        r == lex_le(a@, b@),
{
    proof {
        assert(a@.skip(0) =~= a@);
        assert(b@.skip(0) =~= b@);
    }
    let mut i: usize = 0;
    loop
        invariant
            i <= a@.len(),
            i <= b@.len(),
            lex_le(a@, b@) == lex_le(a@.skip(i as int), b@.skip(i as int)),
        decreases a@.len() - i,
    {
        if i == a.len() {
            return true;
        }
        if i == b.len() {
            return false;
        }
        let x = a[i];
        let y = b[i];
        if x < y {
            return true;
        }
        if x > y {
            return false;
        }
        proof {
            assert(a@.skip(i as int).drop_first() =~= a@.skip(i + 1));
            assert(b@.skip(i as int).drop_first() =~= b@.skip(i + 1));
        }
        i = i + 1;
    }
}

/// Removing one element of a duplicate-free sequence removes exactly it.
proof fn lemma_remove_contains(s: Seq<Seq<u8>>, m: int, k: Seq<u8>)
    requires
        0 <= m < s.len(),
        s.no_duplicates(),
    ensures
        s.remove(m).contains(k) <==> (s.contains(k) && k != s[m]),
        s.remove(m).no_duplicates(),
{
    let t = s.remove(m);
    assert(forall|q: int| 0 <= q < m ==> t[q] == s[q]);
    assert(forall|q: int| m <= q < s.len() - 1 ==> t[q] == s[q + 1]);
    if t.contains(k) {
        let q = choose|q: int| 0 <= q < t.len() && t[q] == k;
        if q < m {
            assert(s[q] == k);
        } else {
            assert(s[q + 1] == k);
        }
    }
    if s.contains(k) && k != s[m] {
        let q = choose|q: int| 0 <= q < s.len() && s[q] == k;
        if q < m {
            assert(t[q] == k);
        } else {
            assert(t[q - 1] == k);
        }
    }
}

/// Sorts duplicate-free keys ascending, keeping exactly the same members.
fn sort_keys(input: Vec<Vec<u8>>) -> (out: Vec<Vec<u8>>)
    requires
        input.deep_view().no_duplicates(),
    ensures
        sorted_lex(out.deep_view()),
        out.deep_view().no_duplicates(),
        forall|k: Seq<u8>| out.deep_view().contains(k) <==> input.deep_view().contains(k),
{
    let ghost orig = input.deep_view();
    let mut rest = input;
    let mut out: Vec<Vec<u8>> = Vec::new();
    while rest.len() > 0
        invariant
            rest.deep_view().no_duplicates(),
            out.deep_view().no_duplicates(),
            sorted_lex(out.deep_view()),
            forall|p: int, q: int|
                0 <= p < out.deep_view().len() && 0 <= q < rest.deep_view().len() ==> lex_le(
                    #[trigger] out.deep_view()[p],
                    #[trigger] rest.deep_view()[q],
                ) && out.deep_view()[p] != rest.deep_view()[q],
            forall|k: Seq<u8>|
                (out.deep_view().contains(k) || rest.deep_view().contains(k)) <==> orig.contains(
                    k,
                ),
        decreases rest.len(),
    {
        let ghost restd = rest.deep_view();
        let ghost outd = out.deep_view();
        proof {
            lemma_lex_le_total(restd[0], restd[0]);
        }
        // find the least remaining key
        let mut m: usize = 0;
        let mut j: usize = 1;
        while j < rest.len()
            invariant
                restd == rest.deep_view(),
                rest@.len() > 0,
                m < j <= restd.len(),
                forall|t: int| 0 <= t < j ==> lex_le(restd[m as int], #[trigger] restd[t]),
            decreases restd.len() - j,
        {
            if lex_le_bytes(&rest[j], &rest[m]) {
                proof {
                    assert(rest@[j as int].deep_view() =~= rest@[j as int]@);
                    assert(rest@[m as int].deep_view() =~= rest@[m as int]@);
                    assert forall|t: int| 0 <= t < j + 1 implies lex_le(
                        restd[j as int],
                        #[trigger] restd[t],
                    ) by {
                        if t < j {
                            lemma_lex_le_trans(restd[j as int], restd[m as int], restd[t]);
                        } else {
                            lemma_lex_le_total(restd[j as int], restd[j as int]);
                        }
                    }
                }
                m = j;
            } else {
                proof {
                    assert(rest@[j as int].deep_view() =~= rest@[j as int]@);
                    assert(rest@[m as int].deep_view() =~= rest@[m as int]@);
                    lemma_lex_le_total(restd[m as int], restd[j as int]);
                }
            }
            j = j + 1;
        }
        let x = rest.remove(m);
        let ghost xv = x@;
        proof {
            assert(rest.deep_view() =~~= restd.remove(m as int));
            assert(xv == restd[m as int]);
            lemma_remove_contains(restd, m as int, xv);
        }
        out.push(x);
        proof {
            assert(out.deep_view() =~~= outd.push(xv));
            let outd2 = outd.push(xv);
            let restd2 = restd.remove(m as int);
            // the pushed key is new to `out`, so no duplicate arises
            assert(forall|p: int| 0 <= p < outd.len() ==> outd2[p] == outd[p]);
            assert(out.deep_view().no_duplicates());
            // the pushed key precedes and differs from every remaining key
            assert forall|p: int, q: int|
                0 <= p < outd2.len() && 0 <= q < restd2.len() implies lex_le(
                #[trigger] outd2[p],
                #[trigger] restd2[q],
            ) && outd2[p] != restd2[q] by {
                lemma_remove_contains(restd, m as int, restd2[q]);
                let t = choose|t: int| 0 <= t < restd.len() && restd[t] == restd2[q];
                assert(lex_le(restd[m as int], restd[t]));
                if p < outd.len() {
                    assert(lex_le(outd[p], restd[t]));
                }
            }
            // membership is preserved: the key moved from `rest` to `out`
            assert forall|k: Seq<u8>|
                (out.deep_view().contains(k) || rest.deep_view().contains(k)) <==> orig.contains(
                    k,
                ) by {
                lemma_remove_contains(restd, m as int, k);
                assert(restd[m as int] == xv);
                if outd2.contains(k) {
                    let p = choose|p: int| 0 <= p < outd2.len() && outd2[p] == k;
                    if p < outd.len() {
                        assert(outd.contains(k));
                    } else {
                        assert(k == xv);
                        assert(restd.contains(k));
                    }
                }
                if outd.contains(k) {
                    let p = choose|p: int| 0 <= p < outd.len() && outd[p] == k;
                    assert(outd2[p] == k);
                    assert(outd2.contains(k));
                }
                if k == xv {
                    assert(outd2[outd.len() as int] == k);
                    assert(outd2.contains(k));
                }
            }
        }
    }
    proof {
        assert(forall|k: Seq<u8>| !rest.deep_view().contains(k));
    }
    out
}

/// What a key scan returns: a duplicate-free, sorted list holding exactly
/// the live keys under the all-match pattern `*`, and nothing otherwise.
pub open spec fn keys_list_ok(
    r: Seq<Seq<u8>>,
    kv: Map<Seq<u8>, EntryView>,
    pattern: Seq<u8>,
    now: u64,
) -> bool {
    &&& sorted_lex(r)
    &&& r.no_duplicates()
    &&& forall|k: Seq<u8>|
        r.contains(k) <==> (pattern == seq![42u8] && prune(kv, now).dom().contains(k))
}

/// The shared keyspace: the configuration and the key-to-entry mapping.
pub struct Database {
    config: Config,
    slots: Vec<Slot>,
}

/// The mathematical model of a `Database`.
pub struct DbView {
    pub kv: Map<Seq<u8>, EntryView>,
    pub config: ConfigView,
}

impl View for Database {
    type V = DbView;

    closed spec fn view(&self) -> DbView {
        DbView { kv: slots_map(self.slots@), config: self.config@ }
    }
}

impl Database {
    /// Internal well-formedness: one slot per key.
    pub closed spec fn wf(&self) -> bool {
        keys_unique(self.slots@)
    }

    /// An empty keyspace with the given configuration.
    pub fn new(config: Config) -> (db: Database)
        ensures
            db.wf(),
            db@.kv == Map::<Seq<u8>, EntryView>::empty(),
            db@.config == config@,
    {
        Database { config, slots: Vec::new() }
    }

    /// The slot index holding `key`, if any.
    fn find_slot(&self, key: &Vec<u8>) -> (r: Option<usize>)
        ensures
            match r {
                Some(i) => i < self.slots@.len() && self.slots@[i as int].key@ == key@,
                None => forall|i: int|
                    0 <= i < self.slots@.len() ==> self.slots@[i].key@ != key@,
            },
    {
        let mut i: usize = 0;
        while i < self.slots.len()
            invariant
                i <= self.slots@.len(),
                forall|j: int| 0 <= j < i ==> self.slots@[j].key@ != key@,
            decreases self.slots@.len() - i,
        {
            if crate::resp::bytes_eq(&self.slots[i].key, key) {
                return Some(i);
            }
            i = i + 1;
        }
        None
    }

    /// Removes every entry; the configuration stays.
    pub(crate) fn clear(&mut self)
        ensures
            final(self).wf(),
            final(self)@.kv == Map::<Seq<u8>, EntryView>::empty(),
            final(self)@.config == old(self)@.config,
    {
        self.slots = Vec::new();
    }

    /// Inserts or overwrites; the last write wins.
    pub(crate) fn insert_entry(&mut self, key: Vec<u8>, entry: StoredEntry)
        requires
            old(self).wf(),
        ensures
            final(self).wf(),
            final(self)@.kv == old(self)@.kv.insert(key@, entry@),
            final(self)@.config == old(self)@.config,
    {
        let ghost olds = self.slots@;
        let ghost kv = key@;
        let ghost ev = entry@;
        match self.find_slot(&key) {
            Some(i) => {
                self.slots.set(i, Slot { key, entry });
                proof {
                    lemma_slots_map_update(olds, i as int, self.slots@[i as int]);
                }
            },
            None => {
                self.slots.push(Slot { key, entry });
                proof {
                    assert(self.slots@.drop_last() =~= olds);
                    assert(forall|j: int| 0 <= j < olds.len() ==> self.slots@[j] == olds[j]);
                    assert(keys_unique(self.slots@));
                }
            },
        }
    }

    /// Inserts or overwrites with no expiration; a plain write clears any
    /// time-to-live a previous write had set.
    pub fn set(&mut self, key: &Vec<u8>, value: &Vec<u8>)
        requires
            old(self).wf(),
        ensures
            final(self).wf(),
            final(self)@.kv == old(self)@.kv.insert(
                key@,
                EntryView { value: value@, expires_at: None },
            ),
            final(self)@.config == old(self)@.config,
    {
        let entry = StoredEntry { value: copy_bytes(value), expires_at: None };
        self.insert_entry(copy_bytes(key), entry);
    }

    /// Inserts or overwrites with the absolute expiration `now + ttl`.
    /// A zero time-to-live makes the key expired for every later read.
    pub fn set_with_expire(&mut self, key: &Vec<u8>, value: &Vec<u8>, expiry_in_ms: u64, now_ms: u64)
        requires
            old(self).wf(),
            now_ms + expiry_in_ms <= u64::MAX,
        ensures
            final(self).wf(),
            final(self)@.kv == old(self)@.kv.insert(
                key@,
                EntryView { value: value@, expires_at: Some((now_ms + expiry_in_ms) as u64) },
            ),
            final(self)@.config == old(self)@.config,
    {
        let entry = StoredEntry {
            value: copy_bytes(value),
            expires_at: Some(now_ms + expiry_in_ms),
        };
        self.insert_entry(copy_bytes(key), entry);
    }

    /// Looks `key` up at time `now_ms`. An absent key returns nothing; a
    /// live key returns its value; an expired key is removed and returns
    /// nothing, so a later scan will not see it.
    pub fn get(&mut self, key: &Vec<u8>, now_ms: u64) -> (r: Option<Vec<u8>>)
        requires
            old(self).wf(),
        ensures
            final(self).wf(),
            r.deep_view() == get_result(old(self)@.kv, key@, now_ms),
            final(self)@.kv == get_post(old(self)@.kv, key@, now_ms),
            final(self)@.config == old(self)@.config,
    {
        let ghost olds = self.slots@;
        match self.find_slot(key) {
            None => {
                proof {
                    lemma_slots_map_contains(olds, key@);
                }
                None
            },
            Some(i) => {
                proof {
                    lemma_slots_map_index(olds, i as int);
                }
                let expired = match &self.slots[i].entry.expires_at {
                    Some(t) => *t <= now_ms,
                    None => false,
                };
                if expired {
                    self.slots.remove(i);
                    proof {
                        lemma_slots_map_remove(olds, i as int);
                    }
                    None
                } else {
                    Some(copy_bytes(&self.slots[i].entry.value))
                }
            },
        }
    }

    /// Scans all entries at time `now_ms`, removing every expired entry in
    /// one batch. Under the all-match pattern `*` the live keys come back
    /// sorted; any other pattern matches nothing.
    pub fn keys(&mut self, pattern: &Vec<u8>, now_ms: u64) -> (r: Vec<Vec<u8>>)
        requires
            old(self).wf(),
        ensures
            final(self).wf(),
            final(self)@.kv == prune(old(self)@.kv, now_ms),
            final(self)@.config == old(self)@.config,
            keys_list_ok(r.deep_view(), old(self)@.kv, pattern@, now_ms),
    {
        let ghost olds = self.slots@;
        let ghost kv0 = slots_map(olds);
        // retain the live slots, in order
        let mut kept: Vec<Slot> = Vec::new();
        let mut i: usize = 0;
        while i < self.slots.len()
            invariant
                keys_unique(olds),
                self.slots@ == olds,
                self.config@ == old(self).config@,
                i <= olds.len(),
                keys_unique(kept@),
                slots_map(kept@) == prune(slots_map(olds.take(i as int)), now_ms),
                forall|p: int|
                    0 <= p < kept@.len() ==> exists|q: int|
                        0 <= q < i && (#[trigger] kept@[p].key@) == olds[q].key@,
            decreases olds.len() - i,
        {
            let ghost kprev = kept@;
            let ghost ki = olds[i as int].key@;
            let ghost ei = olds[i as int].entry@;
            proof {
                assert(olds.take(i + 1).drop_last() =~= olds.take(i as int));
                assert(olds.take(i + 1).last() == olds[i as int]);
                lemma_slots_map_contains(olds.take(i as int), ki);
                assert(forall|q: int| 0 <= q < i ==> olds.take(i as int)[q] == olds[q]);
                // with unique keys, this key is new to the prefix
                assert(!slots_map(olds.take(i as int)).dom().contains(ki));
                lemma_slots_map_contains(kprev, ki);
                assert forall|p: int| 0 <= p < kprev.len() implies kprev[p].key@ != ki by {
                    let q = choose|q: int| 0 <= q < i && kprev[p].key@ == olds[q].key@;
                }
            }
            let slot = &self.slots[i];
            let is_live = match &slot.entry.expires_at {
                Some(t) => now_ms < *t,
                None => true,
            };
            if is_live {
                let copied = Slot {
                    key: copy_bytes(&slot.key),
                    entry: StoredEntry {
                        value: copy_bytes(&slot.entry.value),
                        expires_at: slot.entry.expires_at,
                    },
                };
                kept.push(copied);
                proof {
                    assert(kept@.drop_last() =~= kprev);
                    assert(kept@.last().key@ == ki && kept@.last().entry@ == ei);
                    assert(keys_unique(kept@));
                    assert(slots_map(kept@) =~= prune(slots_map(olds.take(i + 1)), now_ms));
                }
            } else {
                proof {
                    assert(slots_map(kept@) =~= prune(slots_map(olds.take(i + 1)), now_ms));
                }
            }
            i = i + 1;
        }
        proof {
            assert(olds.take(olds.len() as int) =~= olds);
        }
        self.slots = kept;
        // render the key list only under the all-match pattern
        if !(pattern.len() == 1 && pattern[0] == 42) {
            let empty: Vec<Vec<u8>> = Vec::new();
            proof {
                assert(pattern@ != seq![42u8]);
                assert(forall|k: Seq<u8>| !empty.deep_view().contains(k));
            }
            return empty;
        }
        proof {
            assert(pattern@ =~= seq![42u8]);
        }
        let ghost live_slots = self.slots@;
        let mut names: Vec<Vec<u8>> = Vec::new();
        let mut j: usize = 0;
        while j < self.slots.len()
            invariant
                self.slots@ == live_slots,
                j <= live_slots.len(),
                names.deep_view().len() == j,
                forall|p: int|
                    0 <= p < j ==> (#[trigger] names.deep_view()[p]) == live_slots[p].key@,
            decreases live_slots.len() - j,
        {
            let ghost nprev = names.deep_view();
            let nm = copy_bytes(&self.slots[j].key);
            names.push(nm);
            proof {
                assert(names.deep_view() =~~= nprev.push(live_slots[j as int].key@));
            }
            j = j + 1;
        }
        proof {
            assert(names.deep_view().no_duplicates());
            assert forall|k: Seq<u8>|
                names.deep_view().contains(k) <==> prune(kv0, now_ms).dom().contains(k) by {
                lemma_slots_map_contains(live_slots, k);
                if names.deep_view().contains(k) {
                    let p = choose|p: int|
                        0 <= p < names.deep_view().len() && names.deep_view()[p] == k;
                    assert(live_slots[p].key@ == k);
                }
                if exists|q: int| 0 <= q < live_slots.len() && live_slots[q].key@ == k {
                    let q = choose|q: int| 0 <= q < live_slots.len() && live_slots[q].key@ == k;
                    assert(names.deep_view()[q] == k);
                }
            }
        }
        sort_keys(names)
    }

    /// Reads a configuration setting; no interaction with the keyspace.
    pub fn config_get(&self, key: &Vec<u8>) -> (r: Option<Vec<u8>>)
        ensures
            r.deep_view() == config_lookup(self@.config, key@),
    {
        self.config.get(key)
    }
}

/// Time-to-live semantics: writing a key with expiry `now + ttl` makes a
/// read at `now` see nothing when `ttl` is zero, and the written value when
/// `ttl` is positive.
pub proof fn lemma_ttl_semantics(
    kv: Map<Seq<u8>, EntryView>,
    k: Seq<u8>,
    v: Seq<u8>,
    ttl: u64,
    now: u64,
)
    requires
        now + ttl <= u64::MAX,
    ensures
        ttl == 0 ==> get_result(
            kv.insert(k, EntryView { value: v, expires_at: Some((now + ttl) as u64) }),
            k,
            now,
        ) is None,
        ttl > 0 ==> get_result(
            kv.insert(k, EntryView { value: v, expires_at: Some((now + ttl) as u64) }),
            k,
            now,
        ) == Some(v),
{
}

/// Once a read at `now` finds nothing under a key, a key scan at `now` of
/// the store that the read left behind does not hold that key.
pub proof fn lemma_get_none_then_absent(kv: Map<Seq<u8>, EntryView>, k: Seq<u8>, now: u64)
    requires
        get_result(kv, k, now) is None,
    ensures
        !prune(get_post(kv, k, now), now).dom().contains(k),
{
}

/// Overwriting is idempotent and the last write wins: a second plain write
/// under one key replaces the first entirely, clearing any earlier
/// time-to-live, and a read then returns the second value.
pub proof fn lemma_overwrite(
    kv: Map<Seq<u8>, EntryView>,
    k: Seq<u8>,
    e1: EntryView,
    v2: Seq<u8>,
    now: u64,
)
    ensures
        kv.insert(k, e1).insert(k, EntryView { value: v2, expires_at: None }) == kv.insert(
            k,
            EntryView { value: v2, expires_at: None },
        ),
        get_result(
            kv.insert(k, e1).insert(k, EntryView { value: v2, expires_at: None }),
            k,
            now,
        ) == Some(v2),
{
    assert(kv.insert(k, e1).insert(k, EntryView { value: v2, expires_at: None }) =~= kv.insert(
        k,
        EntryView { value: v2, expires_at: None },
    ));
}

/// Writes to distinct keys commute, and neither write is lost: after both,
/// each key holds the entry its own write put there.
pub proof fn lemma_distinct_writes_commute(
    kv: Map<Seq<u8>, EntryView>,
    k1: Seq<u8>,
    e1: EntryView,
    k2: Seq<u8>,
    e2: EntryView,
)
    requires
        k1 != k2,
    ensures
        kv.insert(k1, e1).insert(k2, e2) == kv.insert(k2, e2).insert(k1, e1),
        kv.insert(k1, e1).insert(k2, e2)[k1] == e1,
        kv.insert(k1, e1).insert(k2, e2)[k2] == e2,
{
    assert(kv.insert(k1, e1).insert(k2, e2) =~= kv.insert(k2, e2).insert(k1, e1));
}

/// Writes to one key are linearized: whatever state an interleaving ends
/// in equals the state left by its last write alone.
pub proof fn lemma_same_key_last_write_wins(
    kv: Map<Seq<u8>, EntryView>,
    k: Seq<u8>,
    e1: EntryView,
    e2: EntryView,
)
    ensures
        kv.insert(k, e1).insert(k, e2) == kv.insert(k, e2),
{
    assert(kv.insert(k, e1).insert(k, e2) =~= kv.insert(k, e2));
}

} // verus!
