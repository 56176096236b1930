//! Choosing and starting a speech engine, and the sound it hands over.
use crate::bytes::{push_u16, push_u32, put16, put32};
use crate::letters::{lower_str, lowercase};
use crate::order::{permuted, stable_perm, stable_sort};
use crate::text::{
    chars_of, extend, extend_str, find, find_sub, has_prefix, same, starts_with, string_of, texts,
};
use crate::voice::extension;
use vstd::prelude::*;
use vstd::slice::*;
use vstd::string::*;

verus! {

// ───────────────────────── libraries ─────────────────────────

/// Whether a path is that of a library for the graphics card: it names it, in any case.
pub open spec fn names_cuda(p: Seq<char>) -> bool {
    find(lowercase(p), "cuda"@) is Some
}

pub fn is_cuda(p: &str) -> (r: bool)
    ensures
        r == names_cuda(p@),
{
    let l = lower_str(p);
    let c = chars_of(l.as_str());
    let w = chars_of("cuda");
    find_sub(&c, &w).is_some()
}

/// An engine: the place of its library, and whether it runs on the graphics card.
#[derive(Clone, Copy, Debug, PartialEq, Eq, Structural)]
pub struct Backend {
    pub lib: usize,
    pub cuda: bool,
}

/// The first library for the graphics card, or the first that is not.
pub open spec fn first_lib(libs: Seq<Seq<char>>, cuda: bool) -> Option<usize>
    decreases libs.len(),
{
    if libs.len() == 0 {
        None
    } else {
        match first_lib(libs.drop_last(), cuda) {
            Some(i) => Some(i),
            None => if names_cuda(libs.last()) == cuda {
                Some((libs.len() - 1) as usize)
            } else {
                None
            },
        }
    }
}

/// Whether the graphics card is wanted: as the user says, else where all of it is there.
pub open spec fn wants_cuda(libs: Seq<Seq<char>>, asked: Option<Seq<char>>, has_dirs: bool) -> bool {
    let auto = has_dirs && first_lib(libs, true) is Some;
    match asked {
        Some(a) => if a == "cuda"@ {
            true
        } else if a == "cpu"@ {
            false
        } else {
            auto
        },
        None => auto,
    }
}

/// The engine to start: on the graphics card where that is wanted and there is a library for
/// it, else on the processor with a library of its own, else with whatever there is.
pub open spec fn backend_spec(
    libs: Seq<Seq<char>>,
    asked: Option<Seq<char>>,
    has_dirs: bool,
) -> Option<Backend> {
    match (wants_cuda(libs, asked, has_dirs), first_lib(libs, true)) {
        (true, Some(i)) => Some(Backend { lib: i, cuda: true }),
        _ => match first_lib(libs, false) {
            Some(i) => Some(Backend { lib: i, cuda: false }),
            None => if libs.len() > 0 {
                Some(Backend { lib: 0, cuda: false })
            } else {
                None
            },
        },
    }
}

fn find_lib(libs: &Vec<String>, cuda: bool) -> (r: Option<usize>)
    ensures
        r == first_lib(texts(libs@), cuda),
{
    let ghost all = texts(libs@);
    let mut r: Option<usize> = None;
    let mut i: usize = 0;
    assert(all.take(0) =~= Seq::<Seq<char>>::empty());
    while i < libs.len()
        invariant
            i <= libs.len(),
            all == texts(libs@),
            r == first_lib(all.take(i as int), cuda),
        decreases libs.len() - i,
    {
        proof {
            let t = all.take(i as int + 1);
            assert(t.drop_last() =~= all.take(i as int));
            assert(t.last() == libs@[i as int]@);
        }
        if r.is_none() && is_cuda(libs[i].as_str()) == cuda {
            r = Some(i);
        }
        i = i + 1;
    }
    assert(all.take(i as int) =~= all);
    r
}

pub open spec fn opt_view(s: Option<&str>) -> Option<Seq<char>> {
    match s {
        Some(x) => Some(x@),
        None => None,
    }
}

/// Chooses an engine among the libraries found, which are sorted and differ. `asked` is what
/// the user set, and `has_dirs` says that what the graphics card needs was found.
pub fn pick_backend(libs: &Vec<String>, asked: Option<&str>, has_dirs: bool) -> (r: Option<Backend>)
    ensures
        r == backend_spec(texts(libs@), opt_view(asked), has_dirs),
{
    let on_card = find_lib(libs, true);
    let auto: bool = has_dirs && on_card.is_some();
    let want: bool = match asked {
        Some(a) => {
            let c = chars_of(a);
            let x = chars_of("cuda");
            let y = chars_of("cpu");
            if same(&c, &x) {
                true
            } else if same(&c, &y) {
                false
            } else {
                auto
            }
        },
        None => auto,
    };
    if want {
        match on_card {
            Some(i) => {
                return Some(Backend { lib: i, cuda: true });
            },
            None => {},
        }
    }
    match find_lib(libs, false) {
        Some(i) => Some(Backend { lib: i, cuda: false }),
        None => if libs.len() > 0 {
            Some(Backend { lib: 0, cuda: false })
        } else {
            None
        },
    }
}

/// The first name that begins with `kokoro`, which speaks both languages.
pub open spec fn first_kokoro(names: Seq<Seq<char>>) -> Option<usize>
    decreases names.len(),
{
    if names.len() == 0 {
        None
    } else {
        match first_kokoro(names.drop_last()) {
            Some(i) => Some(i),
            None => if starts_with(names.last(), "kokoro"@) {
                Some((names.len() - 1) as usize)
            } else {
                None
            },
        }
    }
}

/// Chooses a voice among the directories found, which are sorted: the first that speaks both
/// languages, else the first.
pub fn pick_model(names: &Vec<String>) -> (r: Option<usize>)
    ensures
        r == match first_kokoro(texts(names@)) {
            Some(i) => Some(i),
            None => if names@.len() > 0 {
                Some(0usize)
            } else {
                None
            },
        },
{
    let ghost all = texts(names@);
    let k = chars_of("kokoro");
    let mut r: Option<usize> = None;
    let mut i: usize = 0;
    assert(all.take(0) =~= Seq::<Seq<char>>::empty());
    while i < names.len()
        invariant
            i <= names.len(),
            k@ == "kokoro"@,
            all == texts(names@),
            r == first_kokoro(all.take(i as int)),
        decreases names.len() - i,
    {
        proof {
            let t = all.take(i as int + 1);
            assert(t.drop_last() =~= all.take(i as int));
            assert(t.last() == names@[i as int]@);
        }
        let c = chars_of(names[i].as_str());
        if r.is_none() && has_prefix(&c, &k) {
            r = Some(i);
        }
        i = i + 1;
    }
    assert(all.take(i as int) =~= all);
    if r.is_none() && names.len() > 0 {
        return Some(0);
    }
    r
}

/// How many threads the engine gets: half of the cores, two at least and eight at most; four
/// where the number of cores is unknown.
pub fn engine_threads(cores: Option<usize>) -> (r: i32)
    ensures
        r == match cores {
            Some(n) => if n / 2 < 2 {
                2
            } else if n / 2 > 8 {
                8
            } else {
                (n / 2) as i32
            },
            None => 4i32,
        },
{
    match cores {
        Some(n) => {
            let h: usize = n / 2;
            if h < 2 {
                2
            } else if h > 8 {
                8
            } else {
                h as i32
            }
        },
        None => 4,
    }
}

/// What to try where an engine does not start: the processor, unless that was tried.
pub fn retry_on_cpu(provider: &str) -> (r: bool)
    ensures
        r == (provider@ != "cpu"@),
{
    let c = chars_of(provider);
    let w = chars_of("cpu");
    !same(&c, &w)
}

/// A search path with directories put before it, the last one first.
pub open spec fn path_spec(dirs: Seq<Seq<char>>, path: Seq<char>) -> Seq<char>
    decreases dirs.len(),
{
    if dirs.len() == 0 {
        path
    } else {
        dirs.last() + ";"@ + path_spec(dirs.drop_last(), path)
    }
}

pub fn path_with(dirs: &Vec<String>, path: &str) -> (r: String)
    ensures
        r@ == path_spec(texts(dirs@), path@),
{
    let ghost all = texts(dirs@);
    let mut p = chars_of(path);
    let mut i: usize = 0;
    assert(all.take(0) =~= Seq::<Seq<char>>::empty());
    while i < dirs.len()
        invariant
            i <= dirs.len(),
            all == texts(dirs@),
            p@ == path_spec(all.take(i as int), path@),
        decreases dirs.len() - i,
    {
        proof {
            let t = all.take(i as int + 1);
            assert(t.drop_last() =~= all.take(i as int));
            assert(t.last() == dirs@[i as int]@);
        }
        let mut q = chars_of(dirs[i].as_str());
        extend_str(&mut q, ";");
        extend(&mut q, &p);
        p = q;
        i = i + 1;
    }
    assert(all.take(i as int) =~= all);
    string_of(&p)
}

// ───────────────────────── loading order ─────────────────────────

/// The beginnings of the names of libraries that the graphics card needs, in the order in
/// which they have to be loaded: what others stand on comes first.
pub open spec fn load_order() -> Seq<Seq<char>> {
    seq![
        "cudart64_"@,
        "nvrtc"@,
        "cublasLt64_"@,
        "cublas64_"@,
        "cufft64_"@,
        "curand64_"@,
        "cusparse64_"@,
        "cudnn_"@,
        "cudnn64_"@,
    ]
}

/// The first beginning from `k` on that a name has.
pub open spec fn load_rank_from(name: Seq<char>, k: int) -> Option<int>
    decreases 9 - k,
{
    if k < 0 || k >= 9 {
        None
    } else if starts_with(name, load_order()[k]) {
        Some(k)
    } else {
        load_rank_from(name, k + 1)
    }
}

fn begins(c: &Vec<char>, p: &str) -> (r: bool)
    ensures
        r == starts_with(c@, p@),
{
    let w = chars_of(p);
    has_prefix(c, &w)
}

fn load_rank(name: &Vec<char>) -> (r: Option<usize>)
    ensures
        match r {
            Some(k) => load_rank_from(name@, 0) == Some(k as int) && k < 9,
            None => load_rank_from(name@, 0) is None,
        },
{
    reveal_with_fuel(load_rank_from, 10);
    if begins(name, "cudart64_") {
        Some(0)
    } else if begins(name, "nvrtc") {
        Some(1)
    } else if begins(name, "cublasLt64_") {
        Some(2)
    } else if begins(name, "cublas64_") {
        Some(3)
    } else if begins(name, "cufft64_") {
        Some(4)
    } else if begins(name, "curand64_") {
        Some(5)
    } else if begins(name, "cusparse64_") {
        Some(6)
    } else if begins(name, "cudnn_") {
        Some(7)
    } else if begins(name, "cudnn64_") {
        Some(8)
    } else {
        None
    }
}

/// Whether a name ends in `.dll`, in any case.
pub open spec fn is_library(name: Seq<char>) -> bool {
    match extension(name) {
        Some(e) => crate::letters::ascii_lower(e) == "dll"@,
        None => false,
    }
}

fn library(name: &Vec<char>) -> (r: bool)
    ensures
        r == is_library(name@),
{
    let n: usize = name.len();
    proof {
        reveal_strlit("dll");
    }
    let ghost lit = "dll"@;
    assert(lit.len() == 3 && lit[0] == 'd' && lit[1] == 'l' && lit[2] == 'l');
    let mut k: usize = n;
    while k > 1 && name[k - 1] != '.'
        invariant
            n == name.len(),
            k <= n,
            extension(name@) == crate::voice::last_dot(name@, k as int),
        decreases k,
    {
        k = k - 1;
    }
    if k <= 1 {
        return false;
    }
    let ghost e = name@.skip(k as int);
    assert(extension(name@) == Some(e));
    let ghost low = crate::letters::ascii_lower(e);
    if n - k != 3 {
        assert(low.len() != lit.len());
        return false;
    }
    let r: bool = (name[k] == 'd' || name[k] == 'D') && (name[k + 1] == 'l' || name[k + 1] == 'L')
        && (name[k + 2] == 'l' || name[k + 2] == 'L');
    proof {
        assert(e.len() == 3);
        assert(e[0] == name@[k as int] && e[1] == name@[k + 1] && e[2] == name@[k + 2]);
        lemma_lower_is('d', 'D', e[0]);
        lemma_lower_is('l', 'L', e[1]);
        lemma_lower_is('l', 'L', e[2]);
        assert(low[0] == crate::letters::ascii_lower_char(e[0]));
        assert(low[1] == crate::letters::ascii_lower_char(e[1]));
        assert(low[2] == crate::letters::ascii_lower_char(e[2]));
        if r {
            assert(low =~= lit);
        }
    }
    r
}

proof fn lemma_lower_is(lo: char, up: char, c: char)
    requires
        'a' <= lo <= 'z',
        up as u32 + 32 == lo as u32,
    ensures
        crate::letters::ascii_lower_char(c) == lo <==> (c == lo || c == up),
{
    if 'A' <= c <= 'Z' {
        let x = crate::letters::ascii_lower_char(c);
        assert(x as u32 == c as u32 + 32);
        if x == lo {
            vstd::utf8::char_u32_cast(c, up as u32);
            vstd::utf8::char_u32_cast(up, up as u32);
        }
        if c == up {
            vstd::utf8::char_u32_cast(x, lo as u32);
            vstd::utf8::char_u32_cast(lo, lo as u32);
        }
    }
}

/// The places of the libraries to load.
pub open spec fn loadable(names: Seq<Seq<char>>) -> Seq<usize>
    decreases names.len(),
{
    if names.len() == 0 {
        Seq::empty()
    } else if is_library(names.last()) && load_rank_from(names.last(), 0) is Some {
        loadable(names.drop_last()).push((names.len() - 1) as usize)
    } else {
        loadable(names.drop_last())
    }
}

/// The ranks of libraries as sort keys.
pub open spec fn rank_keys(names: Seq<Seq<char>>, at: Seq<usize>) -> Seq<i128> {
    Seq::new(at.len(), |i: int| load_rank_from(names[at[i] as int], 0).unwrap_or(0) as i128)
}

/// Which files to load, in order: by rank, and within a rank as they are listed. The list is
/// sorted by path.
pub fn preload_order(names: &Vec<String>) -> (r: Vec<usize>)
    ensures
        r@ == permuted(
            loadable(texts(names@)),
            stable_perm(rank_keys(texts(names@), loadable(texts(names@)))),
        ),
{
    let ghost all = texts(names@);
    let mut at: Vec<usize> = Vec::new();
    let mut keys: Vec<i128> = Vec::new();
    let mut i: usize = 0;
    assert(all.take(0) =~= Seq::<Seq<char>>::empty());
    while i < names.len()
        invariant
            i <= names.len(),
            all == texts(names@),
            at@ == loadable(all.take(i as int)),
            keys.len() == at.len(),
            forall|j: int|
                0 <= j < at.len() ==> (#[trigger] at@[j]) < all.len() && keys@[j]
                    == load_rank_from(all[at@[j] as int], 0).unwrap_or(0),
        decreases names.len() - i,
    {
        proof {
            let t = all.take(i as int + 1);
            assert(t.drop_last() =~= all.take(i as int));
            assert(t.last() == names@[i as int]@);
        }
        let c = chars_of(names[i].as_str());
        if library(&c) {
            match load_rank(&c) {
                Some(k) => {
                    at.push(i);
                    keys.push(k as i128);
                },
                None => {},
            }
        }
        i = i + 1;
    }
    assert(all.take(i as int) =~= all);
    assert(keys@ =~= rank_keys(all, at@));
    let p = stable_sort(keys);
    let mut r: Vec<usize> = Vec::new();
    let mut k: usize = 0;
    while k < p.len()
        invariant
            k <= p.len(),
            forall|j: int| 0 <= j < p@.len() ==> (#[trigger] p@[j]) < at.len(),
            r.len() == k,
            forall|j: int| 0 <= j < k ==> #[trigger] r@[j] == at@[p@[j] as int],
        decreases p.len() - k,
    {
        r.push(at[p[k]]);
        k = k + 1;
    }
    assert(r@ =~= permuted(at@, p@));
    r
}

// ───────────────────────── sound ─────────────────────────

/// The samples, two bytes each.
pub open spec fn pcm(s: Seq<i16>) -> Seq<u8>
    decreases s.len(),
{
    if s.len() == 0 {
        Seq::empty()
    } else {
        pcm(s.drop_last()) + put16(unsigned16(s.last()))
    }
}

/// The 16 bits of a number.
pub open spec fn unsigned16(x: i16) -> u16 {
    if x >= 0 {
        x as u16
    } else {
        (0x1_0000 + x) as u16
    }
}

/// A sound file: one channel of 16-bit samples.
pub open spec fn wav_spec(s: Seq<i16>, rate: u32) -> Seq<u8> {
    let n = (s.len() * 2) as u32;
    seq![0x52u8, 0x49u8, 0x46u8, 0x46u8] + put32((36 + n) as u32) + seq![
        0x57u8,
        0x41u8,
        0x56u8,
        0x45u8,
        0x66u8,
        0x6Du8,
        0x74u8,
        0x20u8,
    ] + put32(16) + put16(1) + put16(1) + put32(rate) + put32((rate * 2) as u32) + put16(2) + put16(
        16,
    ) + seq![0x64u8, 0x61u8, 0x74u8, 0x61u8] + put32(n) + pcm(s)
}

/// The sound file of samples.
pub fn to_wav(samples: &[i16], sample_rate: u32) -> (r: Vec<u8>)
    requires
        36 + samples@.len() * 2 <= u32::MAX,
        sample_rate * 2 <= u32::MAX,
    ensures
        r@ == wav_spec(samples@, sample_rate),
{
    let n: u32 = (samples.len() * 2) as u32;
    let mut out: Vec<u8> = Vec::new();
    out.push(0x52);
    out.push(0x49);
    out.push(0x46);
    out.push(0x46);
    assert(out@ =~= seq![0x52u8, 0x49u8, 0x46u8, 0x46u8]);
    push_u32(&mut out, 36 + n);
    let ghost a = out@;
    out.push(0x57);
    out.push(0x41);
    out.push(0x56);
    out.push(0x45);
    out.push(0x66);
    out.push(0x6D);
    out.push(0x74);
    out.push(0x20);
    assert(out@ =~= a + seq![0x57u8, 0x41u8, 0x56u8, 0x45u8, 0x66u8, 0x6Du8, 0x74u8, 0x20u8]);
    push_u32(&mut out, 16);
    push_u16(&mut out, 1);
    push_u16(&mut out, 1);
    push_u32(&mut out, sample_rate);
    push_u32(&mut out, sample_rate * 2);
    push_u16(&mut out, 2);
    push_u16(&mut out, 16);
    let ghost b = out@;
    out.push(0x64);
    out.push(0x61);
    out.push(0x74);
    out.push(0x61);
    assert(out@ =~= b + seq![0x64u8, 0x61u8, 0x74u8, 0x61u8]);
    push_u32(&mut out, n);
    let ghost head = out@;
    let mut i: usize = 0;
    assert(samples@.take(0) =~= Seq::<i16>::empty());
    assert(out@ =~= head + pcm(samples@.take(0)));
    while i < samples.len()
        invariant
            i <= samples.len(),
            out@ == head + pcm(samples@.take(i as int)),
        decreases samples.len() - i,
    {
        let x: i16 = samples[i];
        let u: u16 = if x >= 0 {
            x as u16
        } else {
            (0x1_0000i32 + x as i32) as u16
        };
        push_u16(&mut out, u);
        proof {
            let t = samples@.take(i as int + 1);
            assert(t.drop_last() =~= samples@.take(i as int));
            assert(out@ =~= head + pcm(t));
        }
        i = i + 1;
    }
    assert(samples@.take(i as int) =~= samples@);
    out
}

/// The sample rate an engine reports, one at least.
pub fn usable_rate(reported: i32) -> (r: u32)
    ensures
        r == if reported > 1 {
            reported as u32
        } else {
            1
        },
{
    if reported > 1 {
        reported as u32
    } else {
        1
    }
}

} // verus!
