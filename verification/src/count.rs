//! Counting the objects under a folder: per-object tallies, the sub-folder a
//! key belongs to, and sizes written for people.
use vstd::prelude::*;

use crate::client::opt_view;
use crate::text::{
    chars_of, decimal, digit, digit_char, find_char, push_decimal, strip_prefix_or_self,
    string_from_chars,
};

verus! {

/// How many objects were seen and how many bytes they hold.
#[derive(Clone, Copy, Debug, PartialEq, Eq)]
pub struct Tally {
    pub objects: u64,
    pub bytes: u64,
}

impl Tally {
    /// No objects and no bytes.
    pub fn new() -> (res: Tally)
        ensures
            res.objects == 0,
            res.bytes == 0,
    {
        Tally { objects: 0, bytes: 0 }
    }

    /// Accounts for one more object of `size` bytes.
    pub fn add(&mut self, size: u64)
        requires
            old(self).objects < u64::MAX,
            old(self).bytes + size <= u64::MAX,
        ensures
            final(self).objects == old(self).objects + 1,
            final(self).bytes == old(self).bytes + size,
    {
        self.objects = self.objects + 1;
        self.bytes = self.bytes + size;
    }
}

impl Default for Tally {
    fn default() -> (res: Tally)
        ensures
            res.objects == 0,
            res.bytes == 0,
    {
        Tally { objects: 0, bytes: 0 }
    }
}

/// The sub-folder that `key` belongs to under `prefix`: the path segment
/// right after the prefix, or `.` for a key that sits in the folder itself.
/// A key that does not start with the prefix is taken whole.
pub open spec fn group_spec(key: Seq<char>, prefix: Seq<char>) -> Seq<char> {
    let rel = strip_prefix_or_self(key, prefix);
    match find_char(rel, '/') {
        Some(i) => rel.subrange(0, i),
        None => "."@,
    }
}

/// A position found in a suffix, as a position in the whole.
spec fn shifted(o: Option<int>, d: int) -> Option<int> {
    match o {
        Some(j) => Some(j + d),
        None => None,
    }
}

proof fn lemma_find_char_step(s: Seq<char>, c: char, i: int)
    requires
        0 <= i < s.len(),
        s[i] != c,
        find_char(s, c) == shifted(find_char(s.subrange(i, s.len() as int), c), i),
    ensures
        find_char(s, c) == shifted(find_char(s.subrange(i + 1, s.len() as int), c), i + 1),
{
    assert(s.subrange(i, s.len() as int).drop_first() =~= s.subrange(i + 1, s.len() as int));
}

/// The path segment right after the prefix — the sub-folder a key belongs to.
pub fn group_of(key: &str, prefix: &str) -> (res: String)
    ensures
        res@ == group_spec(key@, prefix@),
{
    let ks = chars_of(key);
    let ps = chars_of(prefix);
    let mut start: usize = 0;
    if ps.len() <= ks.len() {
        let mut same = true;
        let mut k: usize = 0;
        while k < ps.len()
            invariant
                ps.len() <= ks.len(),
                k <= ps.len(),
                same <==> forall|m: int| 0 <= m < k ==> ks@[m] == ps@[m],
            decreases ps.len() - k,
        {
            if ks[k] != ps[k] {
                same = false;
            }
            k = k + 1;
        }
        if same {
            assert(ks@.subrange(0, ps@.len() as int) =~= ps@);
            start = ps.len();
        } else {
            assert(!ps@.is_prefix_of(ks@)) by {
                if ps@.is_prefix_of(ks@) {
                    let m = choose|m: int| 0 <= m < ps.len() && ks@[m] != ps@[m];
                    assert(ks@.subrange(0, ps@.len() as int)[m] == ks@[m]);
                }
            }
        }
    }
    let ghost rel = strip_prefix_or_self(key@, prefix@);
    assert(rel =~= ks@.subrange(start as int, ks@.len() as int));
    let mut i = start;
    assert(rel.subrange(0, rel.len() as int) =~= rel);
    while i < ks.len() && ks[i] != '/'
        invariant
            start <= i <= ks.len(),
            rel == ks@.subrange(start as int, ks@.len() as int),
            find_char(rel, '/') == shifted(find_char(rel.subrange(i - start, rel.len() as int), '/'), i - start),
        decreases ks.len() - i,
    {
        proof {
            lemma_find_char_step(rel, '/', i - start);
        }
        i = i + 1;
    }
    if i == ks.len() {
        assert(rel.subrange(i - start, rel.len() as int).len() == 0);
        String::from_str(".")
    } else {
        assert(rel.subrange(i - start, rel.len() as int)[0] == '/');
        let mut out: Vec<char> = Vec::new();
        let mut k = start;
        while k < i
            invariant
                start <= k <= i < ks.len(),
                out@ == ks@.subrange(start as int, k as int),
            decreases i - k,
        {
            out.push(ks[k]);
            k = k + 1;
            assert(out@ =~= ks@.subrange(start as int, k as int));
        }
        assert(out@ =~= rel.subrange(0, i - start));
        string_from_chars(out.as_slice())
    }
}

/// `1024^u`.
pub open spec fn pow1024(u: nat) -> nat
    decreases u,
{
    if u == 0 {
        1
    } else {
        1024 * pow1024((u - 1) as nat)
    }
}

/// `2^s`.
pub open spec fn pow2(s: nat) -> nat
    decreases s,
{
    if s == 0 {
        1
    } else {
        2 * pow2((s - 1) as nat)
    }
}

/// `2^53`: every whole number below it is exactly an `f64`.
pub open spec fn f64_exact_limit() -> nat {
    0x20_0000_0000_0000
}

/// How many low bits of `n` an `f64` cannot hold.
pub open spec fn dropped_bits(n: nat) -> nat
    decreases n,
{
    if n < f64_exact_limit() {
        0
    } else {
        1 + dropped_bits(n / 2)
    }
}

/// `n as f64`: `n` rounded to the nearest value with 53 significant bits,
/// ties to the even one.
pub open spec fn as_f64(n: nat) -> nat {
    if n < f64_exact_limit() {
        n
    } else {
        let p = pow2(dropped_bits(n));
        let q = n / p;
        let r = n % p;
        let half = p / 2;
        if r > half || (r == half && q % 2 == 1) {
            (q + 1) * p
        } else {
            q * p
        }
    }
}

/// The unit that a size is written in: the largest of B, KiB, MiB, GiB and
/// TiB that it reaches.
pub open spec fn unit_of(n: nat) -> nat {
    if n >= pow1024(4) {
        4
    } else if n >= pow1024(3) {
        3
    } else if n >= pow1024(2) {
        2
    } else if n >= pow1024(1) {
        1
    } else {
        0
    }
}

/// The name of unit `u`.
pub open spec fn unit_name(u: nat) -> Seq<char> {
    if u == 0 {
        "B"@
    } else if u == 1 {
        "KiB"@
    } else if u == 2 {
        "MiB"@
    } else if u == 3 {
        "GiB"@
    } else {
        "TiB"@
    }
}

/// `x / d` rounded to the nearest whole number, a tie going to the even one.
pub open spec fn round_half_even(x: nat, d: nat) -> nat
    recommends
        d > 0,
{
    let q = x / d;
    let r = x % d;
    if 2 * r > d || (2 * r == d && q % 2 == 1) {
        q + 1
    } else {
        q
    }
}

/// The size in unit `u`, in tenths, rounded to the nearest tenth, a size
/// exactly half-way between two tenths going to the even one (1280 bytes
/// are 12 tenths of a KiB).
pub open spec fn tenths(n: nat, u: nat) -> nat {
    round_half_even(10 * as_f64(n), pow1024(u))
}

/// A size for people: whole bytes below 1 KiB (`"512 B"`), else the size in
/// the largest unit up to TiB that it reaches, with one decimal
/// (`"1.5 KiB"`).
pub open spec fn human_bytes_spec(n: nat) -> Seq<char> {
    let u = unit_of(n);
    if u == 0 {
        decimal(n) + " B"@
    } else {
        let t = tenths(n, u);
        decimal(t / 10) + seq!['.', digit_char((t % 10) as int), ' '] + unit_name(u)
    }
}

/// The name of unit `u`.
fn unit_label(u: u64) -> (res: &'static str)
    requires
        1 <= u <= 4,
    ensures
        res@ == unit_name(u as nat),
{
    if u == 1 {
        "KiB"
    } else if u == 2 {
        "MiB"
    } else if u == 3 {
        "GiB"
    } else {
        "TiB"
    }
}

proof fn lemma_pow1024_values()
    ensures
        pow1024(1) == 0x400,
        pow1024(2) == 0x10_0000,
        pow1024(3) == 0x4000_0000,
        pow1024(4) == 0x100_0000_0000,
{
    reveal_with_fuel(pow1024, 5);
}

/// `n as f64`, computed on integers.
fn as_f64_exact(n: u64) -> (res: u128)
    ensures
        res == as_f64(n as nat),
        res <= 0x2_0000_0000_0000_0000,
{
    if n < 0x20_0000_0000_0000 {
        return n as u128;
    }
    let mut q: u64 = n;
    let mut s: u64 = 0;
    let mut p: u64 = 1;
    while q >= 0x20_0000_0000_0000
        invariant
            dropped_bits(n as nat) == s + dropped_bits(q as nat),
            p == pow2(s as nat),
            q * p <= n,
            q >= 1,
            1 <= p <= 0x1000,
            s < p,
        decreases q,
    {
        assert(p < 0x800) by (nonlinear_arith)
            requires
                q * p <= n,
                q >= 0x20_0000_0000_0000,
                n <= 0xffff_ffff_ffff_ffff,
        ;
        assert((q / 2) * (2 * p) <= q * p) by (nonlinear_arith)
            requires
                q >= 1,
                p >= 1,
        ;
        q = q / 2;
        s = s + 1;
        p = p * 2;
    }
    let qq = n / p;
    let r = n % p;
    let half = p / 2;
    let big = p as u128;
    if r > half || (r == half && qq % 2 == 1) {
        assert(qq * p <= n) by (nonlinear_arith)
            requires
                qq == n / p,
                p >= 1,
        ;
        assert((qq + 1) * p <= n + p) by (nonlinear_arith)
            requires
                qq * p <= n,
        ;
        ((qq as u128) + 1) * big
    } else {
        assert(qq * p <= n) by (nonlinear_arith)
            requires
                qq == n / p,
                p >= 1,
        ;
        (qq as u128) * big
    }
}

/// A size written for people: `"512 B"`, `"1.5 KiB"`, up to TiB.
pub fn human_bytes(n: u64) -> (res: String)
    ensures
        res@ == human_bytes_spec(n as nat),
{
    proof {
        lemma_pow1024_values();
    }
    let u: u64 = if n >= 0x100_0000_0000 {
        4
    } else if n >= 0x4000_0000 {
        3
    } else if n >= 0x10_0000 {
        2
    } else if n >= 0x400 {
        1
    } else {
        0
    };
    let mut out: Vec<char> = Vec::new();
    if u == 0 {
        push_decimal(&mut out, n);
        out.push(' ');
        out.push('B');
        proof {
            reveal_strlit(" B");
        }
        assert(out@ =~= human_bytes_spec(n as nat));
        return string_from_chars(out.as_slice());
    }
    let unit: u128 = if u == 1 {
        0x400
    } else if u == 2 {
        0x10_0000
    } else if u == 3 {
        0x4000_0000
    } else {
        0x100_0000_0000
    };
    let m = as_f64_exact(n);
    let scaled = 10 * m;
    let q = scaled / unit;
    let r = scaled % unit;
    assert(q <= 0xffff_ffff_ffff_fff0) by (nonlinear_arith)
        requires
            q == scaled / unit,
            scaled == 10 * m,
            m <= 0x2_0000_0000_0000_0000,
            unit >= 0x400,
    ;
    let t128 = if 2 * r > unit || (2 * r == unit && q % 2 == 1) {
        q + 1
    } else {
        q
    };
    let t = t128 as u64;
    push_decimal(&mut out, t / 10);
    out.push('.');
    out.push(digit(t % 10));
    out.push(' ');
    let label = chars_of(unit_label(u));
    let mut k: usize = 0;
    let ghost mid = out@;
    while k < label.len()
        invariant
            k <= label.len(),
            out@ == mid + label@.subrange(0, k as int),
        decreases label.len() - k,
    {
        out.push(label[k]);
        k = k + 1;
        assert(out@ =~= mid + label@.subrange(0, k as int));
    }
    assert(label@.subrange(0, label.len() as int) =~= label@);
    assert(out@ =~= human_bytes_spec(n as nat));
    string_from_chars(out.as_slice())
}


/// The views of per-folder rows: (folder name, tally).
pub open spec fn row_views(v: Seq<(String, Tally)>) -> Seq<(Seq<char>, Tally)> {
    v.map_values(|r: (String, Tally)| (r.0@, r.1))
}

/// The objects counted in `rows`, all together.
pub open spec fn sum_objects(rows: Seq<(Seq<char>, Tally)>) -> nat
    decreases rows.len(),
{
    if rows.len() == 0 {
        0
    } else {
        sum_objects(rows.drop_last()) + rows.last().1.objects as nat
    }
}

/// The bytes counted in `rows`, all together.
pub open spec fn sum_bytes(rows: Seq<(Seq<char>, Tally)>) -> nat
    decreases rows.len(),
{
    if rows.len() == 0 {
        0
    } else {
        sum_bytes(rows.drop_last()) + rows.last().1.bytes as nat
    }
}

/// No folder name occurs twice.
pub open spec fn distinct_names(rows: Seq<(Seq<char>, Tally)>) -> bool {
    forall|i: int, j: int| 0 <= i < j < rows.len() ==> rows[i].0 != rows[j].0
}

/// The tally of folder `name` in `rows`; an unseen folder has none.
pub open spec fn tally_of(rows: Seq<(Seq<char>, Tally)>, name: Seq<char>) -> Tally
    decreases rows.len(),
{
    if rows.len() == 0 {
        Tally { objects: 0, bytes: 0 }
    } else if rows.last().0 == name {
        rows.last().1
    } else {
        tally_of(rows.drop_last(), name)
    }
}

/// The size that a listed object counts for: its size, or nothing when the
/// listing gives none or a negative one.
pub open spec fn counted_size(size: Option<i64>) -> nat {
    match size {
        Some(s) => if s > 0 {
            s as nat
        } else {
            0
        },
        None => 0,
    }
}

/// A listed entry counts as an object when it has a key that is not a
/// zero-byte "folder" marker (a key ending in `/`).
pub open spec fn counts_as_object(key: Option<Seq<char>>) -> bool {
    match key {
        Some(k) => !crate::text::ends_with_char(k, '/'),
        None => false,
    }
}

proof fn lemma_sums_update(rows: Seq<(Seq<char>, Tally)>, i: int, r: (Seq<char>, Tally))
    requires
        0 <= i < rows.len(),
    ensures
        sum_objects(rows.update(i, r)) == sum_objects(rows) - rows[i].1.objects + r.1.objects,
        sum_bytes(rows.update(i, r)) == sum_bytes(rows) - rows[i].1.bytes + r.1.bytes,
    decreases rows.len(),
{
    if i == rows.len() - 1 {
        assert(rows.update(i, r).drop_last() =~= rows.drop_last());
    } else {
        lemma_sums_update(rows.drop_last(), i, r);
        assert(rows.update(i, r).drop_last() =~= rows.drop_last().update(i, r));
    }
}

proof fn lemma_row_within_sums(rows: Seq<(Seq<char>, Tally)>, i: int)
    requires
        0 <= i < rows.len(),
    ensures
        rows[i].1.objects <= sum_objects(rows),
        rows[i].1.bytes <= sum_bytes(rows),
    decreases rows.len(),
{
    if i < rows.len() - 1 {
        lemma_row_within_sums(rows.drop_last(), i);
    }
}

proof fn lemma_tally_of_found(rows: Seq<(Seq<char>, Tally)>, i: int)
    requires
        0 <= i < rows.len(),
        distinct_names(rows),
    ensures
        tally_of(rows, rows[i].0) == rows[i].1,
    decreases rows.len(),
{
    if i < rows.len() - 1 {
        assert(rows.last().0 != rows[i].0);
        lemma_tally_of_found(rows.drop_last(), i);
    }
}

proof fn lemma_tally_of_absent(rows: Seq<(Seq<char>, Tally)>, name: Seq<char>)
    requires
        forall|i: int| 0 <= i < rows.len() ==> rows[i].0 != name,
    ensures
        tally_of(rows, name) == (Tally { objects: 0, bytes: 0 }),
    decreases rows.len(),
{
    if rows.len() > 0 {
        lemma_tally_of_absent(rows.drop_last(), name);
    }
}

proof fn lemma_tally_of_update(rows: Seq<(Seq<char>, Tally)>, i: int, t: Tally, name: Seq<char>)
    requires
        0 <= i < rows.len(),
        rows[i].0 != name,
    ensures
        tally_of(rows.update(i, (rows[i].0, t)), name) == tally_of(rows, name),
    decreases rows.len(),
{
    let u = rows.update(i, (rows[i].0, t));
    if i < rows.len() - 1 {
        assert(u.drop_last() =~= rows.drop_last().update(i, (rows[i].0, t)));
        lemma_tally_of_update(rows.drop_last(), i, t, name);
    } else {
        assert(u.drop_last() =~= rows.drop_last());
    }
}

/// Running counts of a listing: all objects, and the objects of each
/// sub-folder of the prefix, in the order the folders were first seen.
pub struct FolderCounts {
    total: Tally,
    folders: Vec<(String, Tally)>,
}

impl FolderCounts {
    /// The count of every object seen.
    pub closed spec fn total_view(&self) -> Tally {
        self.total
    }

    /// The count of each sub-folder, in the order the folders were first seen.
    pub closed spec fn folders_view(&self) -> Seq<(Seq<char>, Tally)> {
        row_views(self.folders@)
    }

    /// Each folder appears once, and the folders' counts add up to the total.
    pub open spec fn wf(&self) -> bool {
        &&& distinct_names(self.folders_view())
        &&& sum_objects(self.folders_view()) == self.total_view().objects
        &&& sum_bytes(self.folders_view()) == self.total_view().bytes
    }

    /// Nothing counted yet.
    pub fn new() -> (res: FolderCounts)
        ensures
            res.wf(),
            res.total_view() == (Tally { objects: 0, bytes: 0 }),
            res.folders_view().len() == 0,
    {
        let res = FolderCounts { total: Tally::new(), folders: Vec::new() };
        assert(res.folders_view() =~= Seq::<(Seq<char>, Tally)>::empty());
        res
    }

    /// The count of every object seen.
    pub fn total(&self) -> (res: Tally)
        ensures
            res == self.total_view(),
    {
        self.total
    }

    /// The number of sub-folders seen.
    pub fn folder_count(&self) -> (res: usize)
        ensures
            res == self.folders_view().len(),
    {
        self.folders.len()
    }

    /// Counts one listed entry under `prefix`: an entry without a key, and a
    /// zero-byte "folder" marker, are not objects anyone stored and are
    /// skipped; any other adds its size (none or negative counts as 0) to the
    /// total and to the sub-folder that `group_of` names.
    #[verifier::loop_isolation(false)]
    pub fn record(&mut self, key: Option<String>, size: Option<i64>, prefix: &str)
        requires
            old(self).wf(),
            counts_as_object(opt_view(key)) ==> old(self).total_view().objects < u64::MAX
                && old(self).total_view().bytes + counted_size(size) <= u64::MAX,
        ensures
            final(self).wf(),
            !counts_as_object(opt_view(key)) ==> final(self).total_view() == old(self).total_view()
                && final(self).folders_view() == old(self).folders_view(),
            counts_as_object(opt_view(key)) ==> ({
                let g = group_spec(opt_view(key)->0, prefix@);
                &&& final(self).total_view().objects == old(self).total_view().objects + 1
                &&& final(self).total_view().bytes == old(self).total_view().bytes
                    + counted_size(size)
                &&& tally_of(final(self).folders_view(), g).objects == tally_of(
                    old(self).folders_view(),
                    g,
                ).objects + 1
                &&& tally_of(final(self).folders_view(), g).bytes == tally_of(
                    old(self).folders_view(),
                    g,
                ).bytes + counted_size(size)
                &&& forall|n: Seq<char>|
                    n != g ==> #[trigger] tally_of(final(self).folders_view(), n) == tally_of(
                        old(self).folders_view(),
                        n,
                    )
            }),
    {
        let k = match key {
            Some(k) => k,
            None => return,
        };
        if crate::text::ends_with(k.as_str(), '/') {
            return;
        }
        let sz: u64 = match size {
            Some(s) => if s > 0 {
                s as u64
            } else {
                0
            },
            None => 0,
        };
        let g = group_of(k.as_str(), prefix);
        let ghost old_rows = self.folders_view();
        self.total.add(sz);
        let ghost new_total = self.total;
        let mut i: usize = 0;
        while i < self.folders.len()
            invariant
                i <= self.folders.len(),
                self.total == new_total,
                row_views(self.folders@) == old_rows,
                forall|j: int| 0 <= j < i ==> old_rows[j].0 != g@,
            decreases self.folders.len() - i,
        {
            if self.folders[i].0 == g {
                let ghost row = old_rows[i as int];
                proof {
                    lemma_row_within_sums(old_rows, i as int);
                    lemma_tally_of_found(old_rows, i as int);
                }
                let mut t = self.folders[i].1;
                t.add(sz);
                let name = self.folders[i].0.clone();
                self.folders.set(i, (name, t));
                proof {
                    let new_row = (row.0, t);
                    assert(row_views(self.folders@) =~= old_rows.update(i as int, new_row));
                    lemma_sums_update(old_rows, i as int, new_row);
                    assert(self.folders_view()[i as int] == new_row);
                    lemma_tally_of_found(self.folders_view(), i as int);
                    assert forall|n: Seq<char>| n != g@ implies #[trigger] tally_of(
                        self.folders_view(),
                        n,
                    ) == tally_of(old_rows, n) by {
                        lemma_tally_of_update(old_rows, i as int, t, n);
                    }
                }
                return;
            }
            i = i + 1;
        }
        proof {
            lemma_tally_of_absent(old_rows, g@);
        }
        let mut t = Tally::new();
        t.add(sz);
        self.folders.push((g, t));
        proof {
            assert(self.folders_view() =~= old_rows.push((g@, t)));
            assert(self.folders_view().drop_last() =~= old_rows);
            assert forall|n: Seq<char>| n != g@ implies #[trigger] tally_of(
                self.folders_view(),
                n,
            ) == tally_of(old_rows, n) by {}
        }
    }
}

/// `a` sorts before `b` in the order of code points (`String`'s order).
pub open spec fn chars_less(a: Seq<char>, b: Seq<char>) -> bool
    decreases a.len(),
{
    if a.len() == 0 {
        b.len() > 0
    } else if b.len() == 0 {
        false
    } else if a[0] != b[0] {
        a[0] < b[0]
    } else {
        chars_less(a.drop_first(), b.drop_first())
    }
}

proof fn lemma_chars_less_transitive(a: Seq<char>, b: Seq<char>, c: Seq<char>)
    requires
        chars_less(a, b),
        chars_less(b, c),
    ensures
        chars_less(a, c),
    decreases a.len(),
{
    if a.len() > 0 && b.len() > 0 && c.len() > 0 && a[0] == b[0] && b[0] == c[0] {
        lemma_chars_less_transitive(a.drop_first(), b.drop_first(), c.drop_first());
    }
}

proof fn lemma_chars_less_total(a: Seq<char>, b: Seq<char>)
    requires
        a != b,
    ensures
        chars_less(a, b) || chars_less(b, a),
    decreases a.len(),
{
    if a.len() > 0 && b.len() > 0 && a[0] == b[0] {
        if a.drop_first() == b.drop_first() {
            assert(a =~= seq![a[0]] + a.drop_first());
            assert(b =~= seq![b[0]] + b.drop_first());
        }
        lemma_chars_less_total(a.drop_first(), b.drop_first());
    } else if a.len() == 0 && b.len() == 0 {
        assert(a =~= b);
    }
}

/// `a` is listed before `b`: more objects first, then by name.
pub open spec fn row_before(a: (Seq<char>, Tally), b: (Seq<char>, Tally)) -> bool {
    ||| a.1.objects > b.1.objects
    ||| a.1.objects == b.1.objects && chars_less(a.0, b.0)
}

/// Every row is listed before every later one.
pub open spec fn rows_sorted(rows: Seq<(Seq<char>, Tally)>) -> bool {
    forall|i: int, j: int| 0 <= i < j < rows.len() ==> row_before(rows[i], rows[j])
}

proof fn lemma_row_before_transitive(a: (Seq<char>, Tally), b: (Seq<char>, Tally), c: (
    Seq<char>,
    Tally,
))
    requires
        row_before(a, b),
        row_before(b, c),
    ensures
        row_before(a, c),
{
    if a.1.objects == b.1.objects && b.1.objects == c.1.objects {
        lemma_chars_less_transitive(a.0, b.0, c.0);
    }
}

proof fn lemma_row_before_total(a: (Seq<char>, Tally), b: (Seq<char>, Tally))
    requires
        a.0 != b.0,
    ensures
        row_before(a, b) || row_before(b, a),
{
    lemma_chars_less_total(a.0, b.0);
}

/// Whether `a` sorts before `b` in the order of code points.
pub fn str_less(a: &str, b: &str) -> (res: bool)
    ensures
        res == chars_less(a@, b@),
{
    let xs = chars_of(a);
    let ys = chars_of(b);
    let mut i: usize = 0;
    assert(a@.skip(0) =~= a@);
    assert(b@.skip(0) =~= b@);
    while i < xs.len() && i < ys.len() && xs[i] == ys[i]
        invariant
            xs@ == a@,
            ys@ == b@,
            i <= xs.len(),
            i <= ys.len(),
            chars_less(a@, b@) == chars_less(a@.skip(i as int), b@.skip(i as int)),
        decreases xs.len() - i,
    {
        assert(a@.skip(i as int).drop_first() =~= a@.skip(i + 1));
        assert(b@.skip(i as int).drop_first() =~= b@.skip(i + 1));
        i = i + 1;
    }
    let ghost ra = a@.skip(i as int);
    let ghost rb = b@.skip(i as int);
    if i == xs.len() {
        assert(ra.len() == 0);
        i < ys.len()
    } else if i == ys.len() {
        assert(rb.len() == 0);
        false
    } else {
        assert(ra[0] == xs@[i as int] && rb[0] == ys@[i as int]);
        xs[i] < ys[i]
    }
}

/// Where `x` goes among the sorted `rows`: before the first row it precedes.
fn insertion_point(rows: &Vec<(String, Tally)>, x: &(String, Tally)) -> (p: usize)
    ensures
        p <= rows.len(),
        forall|k: int| 0 <= k < p ==> !row_before((x.0@, x.1), #[trigger] row_views(rows@)[k]),
        p < rows.len() ==> row_before((x.0@, x.1), row_views(rows@)[p as int]),
{
    let mut p: usize = 0;
    while p < rows.len()
        invariant
            p <= rows.len(),
            forall|k: int| 0 <= k < p ==> !row_before((x.0@, x.1), #[trigger] row_views(rows@)[k]),
        decreases rows.len() - p,
    {
        let r = &rows[p];
        let before = x.1.objects > r.1.objects || (x.1.objects == r.1.objects && str_less(
            x.0.as_str(),
            r.0.as_str(),
        ));
        assert(row_views(rows@)[p as int] == (r.0@, r.1));
        if before {
            return p;
        }
        p = p + 1;
    }
    p
}

proof fn lemma_sums_insert(rows: Seq<(Seq<char>, Tally)>, p: int, x: (Seq<char>, Tally))
    requires
        0 <= p <= rows.len(),
    ensures
        sum_objects(rows.insert(p, x)) == sum_objects(rows) + x.1.objects,
        sum_bytes(rows.insert(p, x)) == sum_bytes(rows) + x.1.bytes,
    decreases rows.len(),
{
    if p == rows.len() {
        assert(rows.insert(p, x).drop_last() =~= rows);
    } else {
        lemma_sums_insert(rows.drop_last(), p, x);
        assert(rows.insert(p, x).drop_last() =~= rows.drop_last().insert(p, x));
    }
}

proof fn lemma_sum_split(rows: Seq<(Seq<char>, Tally)>, k: int)
    requires
        0 <= k <= rows.len(),
    ensures
        sum_objects(rows) == sum_objects(rows.subrange(0, k)) + sum_objects(
            rows.subrange(k, rows.len() as int),
        ),
    decreases rows.len(),
{
    if k == rows.len() {
        assert(rows.subrange(0, k) =~= rows);
        assert(rows.subrange(k, rows.len() as int) =~= Seq::<(Seq<char>, Tally)>::empty());
    } else {
        lemma_sum_split(rows.drop_last(), k);
        assert(rows.drop_last().subrange(0, k) =~= rows.subrange(0, k));
        assert(rows.subrange(k, rows.len() as int).drop_last() =~= rows.drop_last().subrange(
            k,
            rows.len() - 1,
        ));
    }
}

/// The sub-folders listed first in a report unless all are asked for.
pub const TOP_N: usize = 20;

/// `str::len`: the length of `s` in UTF-8 bytes.
pub open spec fn byte_len(s: Seq<char>) -> usize {
    vstd::utf8::encode_utf8(s).len() as usize
}

/// The widest name among `rows`, in UTF-8 bytes; 0 for no rows.
pub open spec fn widest(rows: Seq<(Seq<char>, Tally)>) -> nat
    decreases rows.len(),
{
    if rows.len() == 0 {
        0
    } else {
        let w = byte_len(rows.last().0) as nat;
        let rest = widest(rows.drop_last());
        if w > rest {
            w
        } else {
            rest
        }
    }
}

/// The summary of a count: the folders in report order, how many of them
/// are listed, how wide the widest listed name is, and how many objects the
/// unlisted folders hold.
pub struct Report {
    pub rows: Vec<(String, Tally)>,
    pub shown: usize,
    pub width: usize,
    pub hidden_objects: u64,
}

impl FolderCounts {
    /// The folders in report order: most objects first, then by name.
    pub fn sorted_rows(&self) -> (res: Vec<(String, Tally)>)
        requires
            self.wf(),
        ensures
            rows_sorted(row_views(res@)),
            row_views(res@).to_multiset() == self.folders_view().to_multiset(),
            sum_objects(row_views(res@)) == self.total_view().objects,
            res@.len() == self.folders_view().len(),
    {
        broadcast use vstd::seq_lib::group_to_multiset_ensures;

        let ghost fv = self.folders_view();
        let mut out: Vec<(String, Tally)> = Vec::new();
        let mut i: usize = 0;
        assert(row_views(out@) =~= fv.subrange(0, 0));
        while i < self.folders.len()
            invariant
                i <= self.folders.len(),
                fv == row_views(self.folders@),
                self.wf(),
                rows_sorted(row_views(out@)),
                row_views(out@).to_multiset() == fv.subrange(0, i as int).to_multiset(),
                sum_objects(row_views(out@)) == sum_objects(fv.subrange(0, i as int)),
                out@.len() == i,
            decreases self.folders.len() - i,
        {
            let x = (self.folders[i].0.clone(), self.folders[i].1);
            let ghost xv = (x.0@, x.1);
            assert(xv == fv[i as int]);
            let p = insertion_point(&out, &x);
            let ghost ov = row_views(out@);
            proof {
                // every row placed so far comes from an earlier folder, so its name differs
                assert forall|k: int| 0 <= k < ov.len() implies #[trigger] ov[k].0 != xv.0 by {
                    assert(ov.contains(ov[k]));
                    vstd::seq_lib::to_multiset_contains(ov, ov[k]);
                    vstd::seq_lib::to_multiset_contains(fv.subrange(0, i as int), ov[k]);
                    assert(fv.subrange(0, i as int).contains(ov[k]));
                    let j = choose|j: int| 0 <= j < i && fv.subrange(0, i as int)[j] == ov[k];
                    assert(fv[j] == ov[k]);
                }
            }
            out.insert(p, x);
            proof {
                let nv = row_views(out@);
                assert(nv =~= ov.insert(p as int, xv));
                assert forall|a: int, b: int| 0 <= a < b < nv.len() implies row_before(
                    nv[a],
                    nv[b],
                ) by {
                    if b < p {
                        assert(nv[a] == ov[a] && nv[b] == ov[b]);
                    } else if b == p {
                        assert(nv[a] == ov[a]);
                        lemma_row_before_total(ov[a], xv);
                    } else if a > p {
                        assert(nv[a] == ov[a - 1] && nv[b] == ov[b - 1]);
                    } else if a == p {
                        assert(nv[b] == ov[b - 1]);
                        if b - 1 > p {
                            lemma_row_before_transitive(xv, ov[p as int], ov[b - 1]);
                        }
                    } else {
                        assert(nv[a] == ov[a] && nv[b] == ov[b - 1]);
                        lemma_row_before_total(ov[a], xv);
                        if b - 1 > p {
                            lemma_row_before_transitive(xv, ov[p as int], ov[b - 1]);
                        }
                        lemma_row_before_transitive(ov[a], xv, ov[b - 1]);
                    }
                }
                assert(fv.subrange(0, i + 1) =~= fv.subrange(0, i as int).push(xv));
                lemma_sums_insert(ov, p as int, xv);
                vstd::seq_lib::to_multiset_insert(ov, p as int, xv);
                vstd::seq_lib::to_multiset_build(fv.subrange(0, i as int), xv);
                assert(fv.subrange(0, i + 1).drop_last() =~= fv.subrange(0, i as int));
            }
            i = i + 1;
        }
        assert(fv.subrange(0, self.folders.len() as int) =~= fv);
        out
    }

    /// The report of the count: every folder in report order; the first
    /// `TOP_N` of them listed unless `show_all`; the width of the widest
    /// listed name in bytes (1 when none is listed); and the objects held by
    /// the folders that are not listed.
    pub fn report(&self, show_all: bool) -> (res: Report)
        requires
            self.wf(),
        ensures
            rows_sorted(row_views(res.rows@)),
            row_views(res.rows@).to_multiset() == self.folders_view().to_multiset(),
            res.shown == if show_all || res.rows@.len() <= TOP_N {
                res.rows@.len() as int
            } else {
                TOP_N as int
            },
            res.width == if res.shown == 0 {
                1
            } else {
                widest(row_views(res.rows@).subrange(0, res.shown as int))
            },
            res.hidden_objects == sum_objects(
                row_views(res.rows@).subrange(res.shown as int, res.rows@.len() as int),
            ),
            sum_objects(row_views(res.rows@)) == self.total_view().objects,
    {
        let rows = self.sorted_rows();
        let ghost rv = row_views(rows@);
        let shown = if show_all || rows.len() <= TOP_N {
            rows.len()
        } else {
            TOP_N
        };
        let mut width: usize = 0;
        let mut k: usize = 0;
        while k < shown
            invariant
                k <= shown <= rows.len(),
                rv == row_views(rows@),
                width == widest(rv.subrange(0, k as int)),
            decreases shown - k,
        {
            let w = rows[k].0.as_str().len();
            assert(rv.subrange(0, k + 1).drop_last() =~= rv.subrange(0, k as int));
            assert(rv.subrange(0, k + 1).last() == rv[k as int]);
            if w > width {
                width = w;
            }
            k = k + 1;
        }
        if shown == 0 {
            width = 1;
        }
        proof {
            lemma_sum_split(rv, shown as int);
        }
        let mut hidden: u64 = 0;
        let mut m = shown;
        while m < rows.len()
            invariant
                shown <= m <= rows.len(),
                rv == row_views(rows@),
                hidden == sum_objects(rv.subrange(shown as int, m as int)),
                sum_objects(rv.subrange(shown as int, rows.len() as int)) <= u64::MAX,
            decreases rows.len() - m,
        {
            proof {
                let tail = rv.subrange(shown as int, rows.len() as int);
                lemma_sum_split(tail, m + 1 - shown);
                assert(tail.subrange(0, m + 1 - shown) =~= rv.subrange(shown as int, m + 1));
                assert(rv.subrange(shown as int, m + 1).drop_last() =~= rv.subrange(
                    shown as int,
                    m as int,
                ));
            }
            hidden = hidden + rows[m].1.objects;
            m = m + 1;
        }
        Report { rows, shown, width, hidden_objects: hidden }
    }
}
/// The sub-folder that a key is counted under never holds a `/`.
pub proof fn lemma_group_is_one_segment(key: Seq<char>, prefix: Seq<char>)
    ensures
        !group_spec(key, prefix).contains('/'),
{
    let rel = strip_prefix_or_self(key, prefix);
    lemma_find_char_first(rel, '/');
    if find_char(rel, '/') is None {
        reveal_strlit(".");
    }
}

proof fn lemma_find_char_first(s: Seq<char>, c: char)
    ensures
        match find_char(s, c) {
            Some(i) => 0 <= i < s.len() && s[i] == c && !s.subrange(0, i).contains(c),
            None => !s.contains(c),
        },
    decreases s.len(),
{
    if s.len() > 0 {
        lemma_find_char_first(s.drop_first(), c);
        match find_char(s, c) {
            Some(i) => {
                if i > 0 {
                    assert(s.subrange(0, i).drop_first() =~= s.drop_first().subrange(0, i - 1));
                    if s.subrange(0, i).contains(c) {
                        let k = choose|k: int| 0 <= k < i && s.subrange(0, i)[k] == c;
                        if k > 0 {
                            assert(s.drop_first().subrange(0, i - 1)[k - 1] == c);
                        }
                    }
                }
            },
            None => {
                if s.contains(c) {
                    let k = choose|k: int| 0 <= k < s.len() && s[k] == c;
                    assert(s.drop_first()[k - 1] == c);
                }
            },
        }
    }
}

/// A size is written in the largest unit it reaches: it is at least one of
/// that unit (bytes aside), and below 1024 of them unless the unit is TiB.
pub proof fn lemma_human_bytes_unit(n: nat)
    ensures
        unit_of(n) > 0 ==> n >= pow1024(unit_of(n)),
        unit_of(n) < 4 ==> n < pow1024(unit_of(n) + 1),
{
    lemma_pow1024_values();
    reveal_with_fuel(pow1024, 2);
}

/// A report accounts for every object: the listed folders and the hidden
/// ones together hold all that was counted.
pub proof fn lemma_report_accounts_for_all(rows: Seq<(Seq<char>, Tally)>, shown: int)
    requires
        0 <= shown <= rows.len(),
    ensures
        sum_objects(rows.subrange(0, shown)) + sum_objects(rows.subrange(shown, rows.len() as int))
            == sum_objects(rows),
{
    lemma_sum_split(rows, shown);
}

/// Names are ordered as text: where two names first differ, the smaller
/// character comes first, whatever the lengths; a name that is a proper
/// prefix of another comes first; no name comes before itself.
pub proof fn lemma_names_order_lexicographically(a: Seq<char>, b: Seq<char>, k: int)
    requires
        0 <= k <= a.len(),
        k <= b.len(),
        a.subrange(0, k) == b.subrange(0, k),
    ensures
        k < a.len() && k < b.len() && a[k] != b[k] ==> (chars_less(a, b) <==> a[k] < b[k]),
        k == a.len() && k < b.len() ==> chars_less(a, b),
        k == a.len() && k == b.len() ==> !chars_less(a, b),
    decreases k,
{
    if k > 0 {
        assert(a[0] == a.subrange(0, k)[0]);
        assert(b[0] == b.subrange(0, k)[0]);
        assert(a.drop_first().subrange(0, k - 1) =~= a.subrange(0, k).drop_first());
        assert(b.drop_first().subrange(0, k - 1) =~= b.subrange(0, k).drop_first());
        lemma_names_order_lexicographically(a.drop_first(), b.drop_first(), k - 1);
        assert(k < a.len() ==> a.drop_first()[k - 1] == a[k]);
        assert(k < b.len() ==> b.drop_first()[k - 1] == b[k]);
    }
}

} // verus!
