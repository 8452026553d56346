use vstd::prelude::*;
use vstd::multiset::Multiset;
use vstd::utf8::encode_utf8;

verus! {

broadcast use {vstd::seq_lib::group_to_multiset_ensures, vstd::multiset::group_multiset_axioms};

/// An input file of a task: its path, and its bytes, or `None` when it
/// could not be read.
#[derive(Debug, Clone)]
pub struct InputFile {
    pub path: String,
    pub contents: Option<Vec<u8>>,
}

/// The 32-byte BLAKE3 digest of `data`.
pub uninterp spec fn blake3_of(data: Seq<u8>) -> Seq<u8>;

/// Relies on `blake3::hash`: the digest depends on the bytes alone and is 32
/// bytes long (`blake3::OUT_LEN`).
#[verifier::external_body]
fn blake3_hash(data: &[u8]) -> (r: Vec<u8>)
    ensures
        r@ == blake3_of(data@),
        r@.len() == 32,
{
    blake3::hash(data).as_bytes().to_vec()
}

/// The decimal digits of `n`, as ASCII bytes.
pub open spec fn decimal(n: nat) -> Seq<u8>
    decreases n,
{
    if n < 10 {
        seq![(48 + n) as u8]
    } else {
        decimal(n / 10).push((48 + n % 10) as u8)
    }
}

/// The bytes hashed for one readable file: `<byte length of path>:<path>`,
/// then the file's contents.
pub open spec fn file_record(path: Seq<char>, contents: Seq<u8>) -> Seq<u8> {
    decimal(encode_utf8(path).len()) + seq![58u8] + encode_utf8(path) + contents
}

/// The digests of the readable files, concatenated in sequence order.
pub open spec fn digest_chain(files: Seq<InputFile>) -> Seq<u8>
    decreases files.len(),
{
    if files.len() == 0 {
        Seq::empty()
    } else {
        digest_chain(files.drop_last()) + match files.last().contents {
            Some(c) => blake3_of(file_record(files.last().path@, c@)),
            None => Seq::empty(),
        }
    }
}

/// The lowercase hexadecimal digit of `n < 16`.
pub open spec fn hex_digit(n: u8) -> char {
    if n < 10 {
        ((48 + n) as u8) as char
    } else {
        ((87 + n) as u8) as char
    }
}

/// Lowercase hexadecimal, two digits per byte, high nibble first.
pub open spec fn hex_of(bytes: Seq<u8>) -> Seq<char>
    decreases bytes.len(),
{
    if bytes.len() == 0 {
        Seq::empty()
    } else {
        hex_of(bytes.drop_last()).push(hex_digit(bytes.last() / 16)).push(hex_digit(bytes.last() % 16))
    }
}

/// The cache key of files taken in this order.
pub open spec fn key_of(files: Seq<InputFile>) -> Seq<char> {
    hex_of(blake3_of(digest_chain(files)))
}

/// Relies on `String::push`, which appends one character.
#[verifier::external_body]
pub(crate) fn push_char(s: &mut String, c: char)
    ensures
        final(s)@ == old(s)@.push(c),
{
    s.push(c)
}

fn hex_digit_exec(n: u8) -> (c: char)
    requires
        n < 16,
    ensures
        c == hex_digit(n),
{
    if n < 10 {
        ((48 + n) as u8) as char
    } else {
        ((87 + n) as u8) as char
    }
}

/// Lowercase hexadecimal text of the bytes.
pub fn to_hex(bytes: &Vec<u8>) -> (s: String)
    ensures
        s@ == hex_of(bytes@),
{
    let mut s = String::new();
    let mut i: usize = 0;
    while i < bytes.len()
        invariant
            i <= bytes.len(),
            s@ == hex_of(bytes@.subrange(0, i as int)),
        decreases bytes.len() - i,
    {
        let b = bytes[i];
        push_char(&mut s, hex_digit_exec(b / 16));
        push_char(&mut s, hex_digit_exec(b % 16));
        proof {
            assert(bytes@.subrange(0, i + 1).drop_last() =~= bytes@.subrange(0, i as int));
        }
        i = i + 1;
    }
    assert(bytes@.subrange(0, bytes.len() as int) =~= bytes@);
    s
}

fn decimal_bytes(n: usize) -> (r: Vec<u8>)
    ensures
        r@ == decimal(n as nat),
    decreases n,
{
    if n < 10 {
        let mut v: Vec<u8> = Vec::new();
        v.push((48 + n) as u8);
        assert(v@ =~= seq![(48 + n) as u8]);
        v
    } else {
        let mut v = decimal_bytes(n / 10);
        v.push((48 + n % 10) as u8);
        v
    }
}

fn append_bytes(dst: &mut Vec<u8>, src: &Vec<u8>)
    ensures
        final(dst)@ == old(dst)@ + src@,
{
    let ghost d0 = dst@;
    let mut i: usize = 0;
    while i < src.len()
        invariant
            i <= src.len(),
            dst@ == d0 + src@.subrange(0, i as int),
        decreases src.len() - i,
    {
        dst.push(src[i]);
        assert(d0 + src@.subrange(0, i + 1) =~= (d0 + src@.subrange(0, i as int)).push(src@[i as int]));
        i = i + 1;
    }
    assert(src@.subrange(0, src.len() as int) =~= src@);
}

/// The bytes hashed for one readable file.
fn record_bytes(path: &String, contents: &Vec<u8>) -> (r: Vec<u8>)
    ensures
        r@ == file_record(path@, contents@),
{
    let p = path.as_str().as_bytes_vec();
    let mut r = decimal_bytes(p.len());
    r.push(58u8);
    append_bytes(&mut r, &p);
    append_bytes(&mut r, contents);
    assert(r@ =~= file_record(path@, contents@));
    r
}

/// The key of the files in the order given: one digest per readable file,
/// then the digest of their concatenation, in hexadecimal.
pub fn key_of_ordered(files: &Vec<InputFile>) -> (key: String)
    ensures
        key@ == key_of(files@),
{
    let mut chain: Vec<u8> = Vec::new();
    let mut i: usize = 0;
    while i < files.len()
        invariant
            i <= files.len(),
            chain@ == digest_chain(files@.subrange(0, i as int)),
        decreases files.len() - i,
    {
        let ghost pre = files@.subrange(0, i + 1);
        assert(pre.drop_last() =~= files@.subrange(0, i as int));
        match &files[i].contents {
            Some(c) => {
                let rec = record_bytes(&files[i].path, c);
                let d = blake3_hash(rec.as_slice());
                append_bytes(&mut chain, &d);
            },
            None => {
                assert(chain@ =~= chain@ + Seq::<u8>::empty());
            },
        }
        i = i + 1;
    }
    assert(files@.subrange(0, files.len() as int) =~= files@);
    let digest = blake3_hash(chain.as_slice());
    to_hex(&digest)
}

/// Lexicographic order on paths, character by character; a proper prefix
/// comes first.
pub open spec fn path_lt(x: Seq<char>, y: Seq<char>) -> bool
    decreases x.len(),
{
    if x.len() == 0 {
        y.len() > 0
    } else if y.len() == 0 {
        false
    } else if (x[0] as int) < (y[0] as int) {
        true
    } else if x[0] == y[0] {
        path_lt(x.drop_first(), y.drop_first())
    } else {
        false
    }
}

pub proof fn lemma_path_lt_transitive(x: Seq<char>, y: Seq<char>, z: Seq<char>)
    requires
        path_lt(x, y),
        path_lt(y, z),
    ensures
        path_lt(x, z),
    decreases x.len(),
{
    if x.len() > 0 && y.len() > 0 && z.len() > 0 && x[0] == y[0] && y[0] == z[0] {
        lemma_path_lt_transitive(x.drop_first(), y.drop_first(), z.drop_first());
    }
}

pub proof fn lemma_path_lt_irreflexive(x: Seq<char>)
    ensures
        !path_lt(x, x),
    decreases x.len(),
{
    if x.len() > 0 {
        lemma_path_lt_irreflexive(x.drop_first());
    }
}

pub proof fn lemma_path_lt_total(x: Seq<char>, y: Seq<char>)
    requires
        x != y,
    ensures
        path_lt(x, y) || path_lt(y, x),
    decreases x.len(),
{
    if x.len() > 0 && y.len() > 0 && x[0] == y[0] {
        if x.drop_first() == y.drop_first() {
            assert(x =~= seq![x[0]] + x.drop_first());
            assert(y =~= seq![y[0]] + y.drop_first());
        }
        lemma_path_lt_total(x.drop_first(), y.drop_first());
    } else if x.len() > 0 && y.len() > 0 && x[0] != y[0] {
        assert((x[0] as int) != (y[0] as int));
    } else if x.len() == 0 && y.len() == 0 {
        assert(x =~= y);
    }
}

/// Whether path `a` sorts before path `b`.
fn path_before(a: &String, b: &String) -> (r: bool)
    ensures
        r == path_lt(a@, b@),
{
    let x = a.as_str();
    let y = b.as_str();
    let nx = x.unicode_len();
    let ny = y.unicode_len();
    let mut i: usize = 0;
    assert(a@.skip(0) =~= a@);
    assert(b@.skip(0) =~= b@);
    while i < nx && i < ny && x.get_char(i) == y.get_char(i)
        invariant
            nx == x@.len(),
            ny == y@.len(),
            x@ == a@,
            y@ == b@,
            i <= nx,
            i <= ny,
            path_lt(a@, b@) == path_lt(a@.skip(i as int), b@.skip(i as int)),
        decreases nx - i,
    {
        proof {
            assert(a@.skip(i as int).drop_first() =~= a@.skip(i + 1));
            assert(b@.skip(i as int).drop_first() =~= b@.skip(i + 1));
        }
        i = i + 1;
    }
    if i == nx {
        i < ny
    } else if i == ny {
        false
    } else {
        x.get_char(i) < y.get_char(i)
    }
}

/// Paths ascend along the sequence (equal paths may sit side by side).
pub open spec fn sorted_by_path(files: Seq<InputFile>) -> bool {
    forall|a: int, b: int|
        0 <= a < b < files.len() ==> !path_lt(#[trigger] files[b].path@, #[trigger] files[a].path@)
}

/// The files ordered by path.
fn sort_by_path(files: Vec<InputFile>) -> (sorted: Vec<InputFile>)
    ensures
        sorted_by_path(sorted@),
        sorted@.to_multiset() == files@.to_multiset(),
{
    let ghost orig = files@;
    let mut rest = files;
    let mut sorted: Vec<InputFile> = Vec::new();
    assert(sorted@.to_multiset().len() == 0);
    assert(sorted@.to_multiset() =~= Multiset::empty());
    assert(sorted@.to_multiset().add(rest@.to_multiset()) =~= orig.to_multiset());
    while rest.len() > 0
        invariant
            sorted_by_path(sorted@),
            sorted@.to_multiset().add(rest@.to_multiset()) == orig.to_multiset(),
        decreases rest.len(),
    {
        let ghost r0 = rest@;
        let f = match rest.pop() {
            Some(f) => f,
            None => {
                assert(false);
                return sorted;
            },
        };
        proof {
            assert(r0 =~= rest@.push(f));
        }
        let mut p: usize = 0;
        while p < sorted.len() && !path_before(&f.path, &sorted[p].path)
            invariant
                p <= sorted.len(),
                forall|a: int| 0 <= a < p ==> !path_lt(f.path@, #[trigger] sorted@[a].path@),
            decreases sorted.len() - p,
        {
            p = p + 1;
        }
        let ghost s0 = sorted@;
        sorted.insert(p, f);
        proof {
            assert(sorted@ == s0.insert(p as int, f));
            assert(sorted@[p as int] == f);
            assert forall|a: int, b: int|
                0 <= a < b < sorted@.len() implies !path_lt(#[trigger] sorted@[b].path@, #[trigger] sorted@[a].path@) by {
                if a < p && b == p {
                    assert(sorted@[a] == s0[a]);
                    assert(!path_lt(f.path@, s0[a].path@));
                } else if a < p && b > p {
                    assert(sorted@[a] == s0[a]);
                    assert(sorted@[b] == s0[b - 1]);
                } else if a == p && b > p {
                    assert(sorted@[b] == s0[b - 1]);
                    assert(path_lt(f.path@, s0[p as int].path@));
                    if path_lt(s0[b - 1].path@, f.path@) {
                        lemma_path_lt_transitive(s0[b - 1].path@, f.path@, s0[p as int].path@);
                        lemma_path_lt_irreflexive(s0[p as int].path@);
                    }
                } else if a > p {
                    assert(sorted@[a] == s0[a - 1]);
                    assert(sorted@[b] == s0[b - 1]);
                }
            }
            assert(s0.insert(p as int, f).to_multiset() == s0.to_multiset().insert(f));
            assert(rest@.push(f).to_multiset() == rest@.to_multiset().insert(f));
            assert(sorted@.to_multiset().add(rest@.to_multiset()) =~= s0.to_multiset().add(r0.to_multiset()));
        }
    }
    assert(rest@.to_multiset().len() == 0);
    assert(rest@.to_multiset() =~= Multiset::empty());
    assert(sorted@.to_multiset() =~= sorted@.to_multiset().add(rest@.to_multiset()));
    sorted
}

/// The cache key of a task's input files: they are ordered by path, so the
/// key depends on the files and not on the order in which they were listed.
pub fn hash_files(files: Vec<InputFile>) -> (key: String)
    ensures
        exists|s: Seq<InputFile>|
            sorted_by_path(s) && s.to_multiset() == files@.to_multiset() && #[trigger] key_of(s) == key@,
        distinct_paths(files@) ==> key@ == files_key(files@),
{
    let ghost f = files@;
    let sorted = sort_by_path(files);
    let key = key_of_ordered(&sorted);
    proof {
        if distinct_paths(f) {
            let c = choose|s: Seq<InputFile>| sorted_by_path(s) && s.to_multiset() == f.to_multiset();
            lemma_key_order_independent(f, f, sorted@, c);
        }
    }
    key
}

/// The key of a set of files: that of the files ordered by path.
pub open spec fn files_key(files: Seq<InputFile>) -> Seq<char> {
    key_of(choose|s: Seq<InputFile>| sorted_by_path(s) && s.to_multiset() == files.to_multiset())
}

/// No two files share a path.
pub open spec fn distinct_paths(files: Seq<InputFile>) -> bool {
    forall|a: int, b: int|
        0 <= a < files.len() && 0 <= b < files.len() && a != b ==> #[trigger] files[a].path@
            != #[trigger] files[b].path@
}

proof fn lemma_sorted_unique(s1: Seq<InputFile>, s2: Seq<InputFile>)
    requires
        sorted_by_path(s1),
        sorted_by_path(s2),
        distinct_paths(s1),
        distinct_paths(s2),
        s1.to_multiset() == s2.to_multiset(),
    ensures
        s1 == s2,
    decreases s1.len(),
{
    if s1.len() == 0 {
        assert(s2.to_multiset().len() == 0);
        assert(s1 =~= s2);
    } else {
        assert(s2.len() == s1.len()) by {
            assert(s1.to_multiset().len() == s1.len());
            assert(s2.to_multiset().len() == s2.len());
        }
        let x = s1[0];
        let y = s2[0];
        assert(s1.to_multiset().count(x) > 0) by {
            assert(s1.contains(x));
        }
        assert(s2.contains(x));
        assert(s1.contains(y)) by {
            assert(s2.contains(y));
            assert(s2.to_multiset().count(y) > 0);
        }
        let i = choose|i: int| 0 <= i < s1.len() && s1[i] == y;
        let j = choose|j: int| 0 <= j < s2.len() && s2[j] == x;
        if x != y {
            assert(i != 0);
            assert(x.path@ != y.path@);
            lemma_path_lt_total(x.path@, y.path@);
            if path_lt(y.path@, x.path@) {
                assert(!path_lt(s1[i].path@, s1[0].path@));
            } else {
                assert(j != 0);
                assert(!path_lt(s2[j].path@, s2[0].path@));
            }
        }
        assert(s1.remove(0) =~= s1.drop_first());
        assert(s2.remove(0) =~= s2.drop_first());
        assert(s1.drop_first().to_multiset() == s1.to_multiset().remove(x));
        assert(s2.drop_first().to_multiset() == s2.to_multiset().remove(y));
        assert forall|a: int, b: int|
            0 <= a < b < s1.drop_first().len() implies !path_lt(
            #[trigger] s1.drop_first()[b].path@,
            #[trigger] s1.drop_first()[a].path@,
        ) by {
            assert(s1.drop_first()[b] == s1[b + 1] && s1.drop_first()[a] == s1[a + 1]);
        }
        assert forall|a: int, b: int|
            0 <= a < b < s2.drop_first().len() implies !path_lt(
            #[trigger] s2.drop_first()[b].path@,
            #[trigger] s2.drop_first()[a].path@,
        ) by {
            assert(s2.drop_first()[b] == s2[b + 1] && s2.drop_first()[a] == s2[a + 1]);
        }
        assert forall|a: int, b: int|
            0 <= a < s1.drop_first().len() && 0 <= b < s1.drop_first().len() && a != b implies #[trigger] s1.drop_first()[a].path@
                != #[trigger] s1.drop_first()[b].path@ by {
            assert(s1.drop_first()[b] == s1[b + 1] && s1.drop_first()[a] == s1[a + 1]);
        }
        assert forall|a: int, b: int|
            0 <= a < s2.drop_first().len() && 0 <= b < s2.drop_first().len() && a != b implies #[trigger] s2.drop_first()[a].path@
                != #[trigger] s2.drop_first()[b].path@ by {
            assert(s2.drop_first()[b] == s2[b + 1] && s2.drop_first()[a] == s2[a + 1]);
        }
        lemma_sorted_unique(s1.drop_first(), s2.drop_first());
        assert(s1 =~= s2) by {
            assert forall|k: int| 0 <= k < s1.len() implies s1[k] == s2[k] by {
                if k > 0 {
                    assert(s1[k] == s1.drop_first()[k - 1]);
                    assert(s2[k] == s2.drop_first()[k - 1]);
                }
            }
        }
    }
}

/// The key does not depend on the order in which the files are listed: two
/// listings of the same files (same paths, same contents), each with distinct
/// paths, ordered by path, give the same key.
pub proof fn lemma_key_order_independent(
    files1: Seq<InputFile>,
    files2: Seq<InputFile>,
    s1: Seq<InputFile>,
    s2: Seq<InputFile>,
)
    requires
        files1.to_multiset() == files2.to_multiset(),
        distinct_paths(files1),
        sorted_by_path(s1),
        s1.to_multiset() == files1.to_multiset(),
        sorted_by_path(s2),
        s2.to_multiset() == files2.to_multiset(),
    ensures
        key_of(s1) == key_of(s2),
{
    lemma_distinct_paths_permutation(files1, s1);
    lemma_distinct_paths_permutation(files1, s2);
    lemma_sorted_unique(s1, s2);
}

proof fn lemma_distinct_paths_permutation(a: Seq<InputFile>, b: Seq<InputFile>)
    requires
        distinct_paths(a),
        a.to_multiset() == b.to_multiset(),
    ensures
        distinct_paths(b),
{
    assert forall|x: int, y: int|
        0 <= x < b.len() && 0 <= y < b.len() && x != y implies #[trigger] b[x].path@ != #[trigger] b[y].path@ by {
        if b[x].path@ == b[y].path@ {
            assert(b.contains(b[x]));
            assert(b.contains(b[y]));
            assert(a.to_multiset().count(b[x]) > 0);
            assert(a.contains(b[x]));
            assert(a.to_multiset().count(b[y]) > 0);
            assert(a.contains(b[y]));
            let i = choose|i: int| 0 <= i < a.len() && a[i] == b[x];
            let j = choose|j: int| 0 <= j < a.len() && a[j] == b[y];
            if b[x] == b[y] {
                assert(b.remove(x).to_multiset() == b.to_multiset().remove(b[x]));
                assert(b.remove(x).contains(b[y])) by {
                    if y < x {
                        assert(b.remove(x)[y] == b[y]);
                    } else {
                        assert(b.remove(x)[y - 1] == b[y]);
                    }
                }
                assert(b.remove(x).to_multiset().count(b[x]) > 0);
                assert(b.to_multiset().remove(b[x]).count(b[x]) > 0);
                assert(b.to_multiset().count(b[x]) >= 2);
                assert(a.remove(i).to_multiset() == a.to_multiset().remove(a[i]));
                assert(a.remove(i).to_multiset().count(b[x]) >= 1);
                assert(a.remove(i).contains(b[x]));
                let k = choose|k: int| 0 <= k < a.remove(i).len() && a.remove(i)[k] == b[x];
                if k < i {
                    assert(a[k] == b[x]);
                } else {
                    assert(a[k + 1] == b[x]);
                }
            } else {
                assert(i != j);
            }
        }
    }
}

/// Whether no two of the files share a path.
pub fn has_distinct_paths(files: &Vec<InputFile>) -> (r: bool)
    ensures
        r == distinct_paths(files@),
{
    let mut i: usize = 0;
    while i < files.len()
        invariant
            i <= files.len(),
            forall|a: int, b: int|
                0 <= a < i && 0 <= b < files.len() && a != b ==> #[trigger] files@[a].path@
                    != #[trigger] files@[b].path@,
        decreases files.len() - i,
    {
        let mut j: usize = 0;
        while j < files.len()
            invariant
                i < files.len(),
                j <= files.len(),
                forall|a: int, b: int|
                    0 <= a < i && 0 <= b < files.len() && a != b ==> #[trigger] files@[a].path@
                        != #[trigger] files@[b].path@,
                forall|b: int| 0 <= b < j && b != i ==> #[trigger] files@[b].path@ != files@[i as int].path@,
            decreases files.len() - j,
        {
            if j != i && files[j].path == files[i].path {
                return false;
            }
            j = j + 1;
        }
        i = i + 1;
    }
    true
}

} // verus!
