use vstd::prelude::*;

use crate::bytes::{
    bytes_eq, contains_seq, crlf, crlf_vec, find_sub, join_vec, join_with,
    lemma_spec_find, lemma_split_join_crlf, match_at, spec_find, split_on,
    split_vec, subvec, trim, trim_spec,
};

verus! {

/// The byte that separates a header's name from its value.
pub open spec fn colon() -> Seq<u8> {
    seq![58u8]
}

/// A fresh vector holding one colon.
pub fn colon_vec() -> (r: Vec<u8>)
    ensures
        r@ == colon(),
{
    let mut r: Vec<u8> = Vec::new();
    r.push(58);
    proof {
        assert(r@ =~= colon());
    }
    r
}

/// The name of a header line: everything before its first colon, or the
/// whole line if it has none.
pub open spec fn name_of(line: Seq<u8>) -> Seq<u8> {
    match spec_find(line, colon()) {
        Some(i) => line.subrange(0, i),
        None => line,
    }
}

/// The value of a header line: everything after its first colon, trimmed;
/// empty if the line has no colon.
pub open spec fn value_of(line: Seq<u8>) -> Seq<u8> {
    match spec_find(line, colon()) {
        Some(i) => trim_spec(line.skip(i + 1)),
        None => Seq::<u8>::empty(),
    }
}

/// The header lines of `h` whose name is not `name`, in order.
pub open spec fn remove_name(h: Seq<Seq<u8>>, name: Seq<u8>) -> Seq<Seq<u8>>
    decreases h.len(),
{
    if h.len() == 0 {
        Seq::<Seq<u8>>::empty()
    } else if name_of(h[0]) == name {
        remove_name(h.skip(1), name)
    } else {
        seq![h[0]] + remove_name(h.skip(1), name)
    }
}

/// The line `"name: value"`.
pub open spec fn make_line(name: Seq<u8>, value: Seq<u8>) -> Seq<u8> {
    name + seq![58u8, 32u8] + value
}

/// Setting a full line: every line with the same name is removed, then the
/// new line is appended at the end.
pub open spec fn set_line_model(h: Seq<Seq<u8>>, line: Seq<u8>) -> Seq<Seq<u8>> {
    remove_name(h, name_of(line)).push(line)
}

/// Setting a name to a value: remove, then append `"name: value"`.
pub open spec fn set_model(h: Seq<Seq<u8>>, name: Seq<u8>, value: Seq<u8>) -> Seq<Seq<u8>> {
    set_line_model(h, make_line(name, value))
}

/// The value of the first line whose name is `name`; empty if there is none.
pub open spec fn get_model(h: Seq<Seq<u8>>, name: Seq<u8>) -> Seq<u8>
    decreases h.len(),
{
    if h.len() == 0 {
        Seq::<u8>::empty()
    } else if name_of(h[0]) == name {
        value_of(h[0])
    } else {
        get_model(h.skip(1), name)
    }
}

/// The wire form of a header list: its lines joined with CRLF.
pub open spec fn serialize_model(h: Seq<Seq<u8>>) -> Seq<u8> {
    join_with(h, crlf())
}

/// The header list read from a raw block: its CRLF-separated lines, or
/// nothing at all if the block is empty.
pub open spec fn parse_model(raw: Seq<u8>) -> Seq<Seq<u8>> {
    if raw.len() == 0 {
        Seq::<Seq<u8>>::empty()
    } else {
        split_on(raw, crlf())
    }
}

/// An ordered list of raw header lines, each of the shape `"Name: value"`.
pub struct HeaderList {
    pub lines: Vec<Vec<u8>>,
}

impl View for HeaderList {
    type V = Seq<Seq<u8>>;

    open spec fn view(&self) -> Seq<Seq<u8>> {
        self.lines.deep_view()
    }
}

/// The name of a header line, executably.
pub fn line_name(line: &Vec<u8>) -> (r: Vec<u8>)
    ensures
        r@ == name_of(line@),
{
    let c = colon_vec();
    match find_sub(line, &c) {
        Some(i) => {
            proof {
                lemma_spec_find(line@, colon());
                assert(match_at(line@, colon(), i as int));
            }
            subvec(line, 0, i)
        },
        None => subvec(line, 0, line.len()),
    }
}

/// The value of a header line, executably.
pub fn line_value(line: &Vec<u8>) -> (r: Vec<u8>)
    ensures
        r@ == value_of(line@),
{
    let c = colon_vec();
    let n = line.len();
    match find_sub(line, &c) {
        Some(i) => {
            proof {
                lemma_spec_find(line@, colon());
                assert(match_at(line@, colon(), i as int));
            }
            let tail = subvec(line, i + 1, n);
            proof {
                assert(tail@ =~= line@.skip(i + 1));
            }
            trim(&tail)
        },
        None => Vec::new(),
    }
}

/// Appending a line to a list commutes with removal in the obvious way.
proof fn lemma_remove_name_push(h: Seq<Seq<u8>>, x: Seq<u8>, name: Seq<u8>)
    ensures
        name_of(x) == name ==> remove_name(h.push(x), name) == remove_name(h, name),
        name_of(x) != name ==> remove_name(h.push(x), name) == remove_name(h, name).push(x),
    decreases h.len(),
{
    if h.len() == 0 {
        assert(h.push(x)[0] == x);
        assert(h.push(x).skip(1) =~= Seq::<Seq<u8>>::empty());
        assert(remove_name(Seq::<Seq<u8>>::empty(), name) == Seq::<Seq<u8>>::empty());
        assert(remove_name(h, name) == Seq::<Seq<u8>>::empty());
        if name_of(x) != name {
            assert(remove_name(h.push(x), name) == seq![x] + remove_name(
                Seq::<Seq<u8>>::empty(),
                name,
            ));
            assert(seq![x] + Seq::<Seq<u8>>::empty() =~= remove_name(h, name).push(x));
        }
    } else {
        lemma_remove_name_push(h.skip(1), x, name);
        assert(h.push(x)[0] == h[0]);
        assert(h.push(x).skip(1) =~= h.skip(1).push(x));
        assert(remove_name(h.push(x), name) == if name_of(h[0]) == name {
            remove_name(h.skip(1).push(x), name)
        } else {
            seq![h[0]] + remove_name(h.skip(1).push(x), name)
        });
        if name_of(h[0]) != name {
            if name_of(x) != name {
                assert(seq![h[0]] + remove_name(h.skip(1), name).push(x) =~= (seq![h[0]]
                    + remove_name(h.skip(1), name)).push(x));
            }
        }
    }
}

/// Removing a name from a list that does not hold it changes nothing;
/// removal is hence idempotent.
proof fn lemma_remove_name_idempotent(h: Seq<Seq<u8>>, name: Seq<u8>)
    ensures
        remove_name(remove_name(h, name), name) == remove_name(h, name),
    decreases h.len(),
{
    if h.len() == 0 {
    } else {
        lemma_remove_name_idempotent(h.skip(1), name);
        if name_of(h[0]) != name {
            let r = remove_name(h.skip(1), name);
            assert((seq![h[0]] + r)[0] == h[0]);
            assert((seq![h[0]] + r).skip(1) =~= r);
        }
    }
}

impl HeaderList {
    /// An empty header list.
    pub fn new() -> (r: HeaderList)
        ensures
            r@ == Seq::<Seq<u8>>::empty(),
    {
        let r = HeaderList { lines: Vec::new() };
        proof {
            assert(r@ =~= Seq::<Seq<u8>>::empty());
        }
        r
    }

    /// Set a header from a full `"Name: value"` line: any line with the same
    /// name is removed, and the given line is appended at the end.
    pub fn set_line(&mut self, line: Vec<u8>)
        ensures
            final(self)@ == set_line_model(old(self)@, line@),
    {
        let key = line_name(&line);
        let mut kept: Vec<Vec<u8>> = Vec::new();
        proof {
            assert(kept.deep_view() =~~= remove_name(old(self)@.take(0), key@));
        }
        let n = self.lines.len();
        let mut i: usize = 0;
        while i < n
            invariant
                n == self.lines@.len(),
                self@ == old(self)@,
                key@ == name_of(line@),
                0 <= i <= n,
                kept.deep_view() == remove_name(self@.take(i as int), key@),
            decreases n - i,
        {
            let cur_name = line_name(&self.lines[i]);
            let ghost prev = kept.deep_view();
            proof {
                assert(self@[i as int] =~= self.lines@[i as int]@);
            }
            if !bytes_eq(&cur_name, &key) {
                let cur = subvec(&self.lines[i], 0, self.lines[i].len());
                proof {
                    assert(cur@ =~= self@[i as int]);
                }
                kept.push(cur);
                proof {
                    assert(kept.deep_view() =~~= prev.push(self@[i as int]));
                }
            }
            proof {
                lemma_remove_name_push(self@.take(i as int), self@[i as int], key@);
                assert(self@.take(i + 1) =~= self@.take(i as int).push(self@[i as int]));
            }
            i += 1;
        }
        proof {
            assert(self@.take(n as int) =~= self@);
        }
        let ghost prev = kept.deep_view();
        kept.push(line);
        proof {
            assert(kept.deep_view() =~~= prev.push(line@));
        }
        self.lines = kept;
    }

    /// Set the header `name` to `value`: any line with that name is removed,
    /// then `"name: value"` is appended at the end.
    pub fn set(&mut self, name: &Vec<u8>, value: &Vec<u8>)
        ensures
            final(self)@ == set_model(old(self)@, name@, value@),
    {
        let mut line = subvec(name, 0, name.len());
        line.push(58);
        line.push(32);
        let mut v = subvec(value, 0, value.len());
        line.append(&mut v);
        proof {
            assert(line@ =~= make_line(name@, value@));
        }
        self.set_line(line);
    }

    /// The value of the first header named `name`, trimmed; empty if absent.
    pub fn get(&self, name: &Vec<u8>) -> (r: Vec<u8>)
        ensures
            r@ == get_model(self@, name@),
    {
        let n = self.lines.len();
        let mut i: usize = 0;
        proof {
            assert(self@.skip(0) =~= self@);
        }
        while i < n
            invariant
                n == self.lines@.len(),
                0 <= i <= n,
                get_model(self@, name@) == get_model(self@.skip(i as int), name@),
            decreases n - i,
        {
            let cur_name = line_name(&self.lines[i]);
            proof {
                assert(self@[i as int] =~= self.lines@[i as int]@);
                assert(self@.skip(i as int)[0] == self@[i as int]);
                assert(self@.skip(i as int).skip(1) =~= self@.skip(i + 1));
            }
            if bytes_eq(&cur_name, name) {
                return line_value(&self.lines[i]);
            }
            i += 1;
        }
        proof {
            assert(self@.skip(n as int) =~= Seq::<Seq<u8>>::empty());
        }
        Vec::new()
    }

    /// The wire form of the list: lines joined with CRLF; empty if empty.
    pub fn serialize(&self) -> (r: Vec<u8>)
        ensures
            r@ == serialize_model(self@),
    {
        let sep = crlf_vec();
        join_vec(&self.lines, &sep)
    }

    /// Read a header list back from a raw block: one line per CRLF-separated
    /// piece, or an empty list for an empty block.
    pub fn parse(raw: &Vec<u8>) -> (r: HeaderList)
        ensures
            r@ == parse_model(raw@),
    {
        if raw.len() == 0 {
            HeaderList::new()
        } else {
            let sep = crlf_vec();
            let lines = split_vec(raw, &sep);
            HeaderList { lines }
        }
    }
}

/// A name that holds no colon names the line built from it.
pub proof fn lemma_make_line_name(name: Seq<u8>, value: Seq<u8>)
    requires
        !contains_seq(name, colon()),
    ensures
        name_of(make_line(name, value)) == name,
        value_of(make_line(name, value)) == trim_spec(value),
{
    let line = make_line(name, value);
    let n = name.len() as int;
    assert(match_at(line, colon(), n)) by {
        assert(line.subrange(n, n + 1) =~= colon());
    }
    assert forall|j: int| 0 <= j < n implies !match_at(line, colon(), j) by {
        if match_at(line, colon(), j) {
            assert(line.subrange(j, j + 1)[0] == line[j]);
            assert(name[j] == 58);
            assert(match_at(name, colon(), j)) by {
                assert(name.subrange(j, j + 1) =~= colon());
            }
            assert(contains_seq(name, colon()));
        }
    }
    lemma_spec_find(line, colon());
    match spec_find(line, colon()) {
        None => {
            assert(match_at(line, colon(), n));
            assert(false);
        },
        Some(i0) => {
            assert(i0 == n);
            assert(line.subrange(0, n) =~= name);
            assert(line.skip(n + 1) =~= seq![32u8] + value);
            assert(trim_spec(seq![32u8] + value) == trim_spec(value)) by {
                assert((seq![32u8] + value).len() > 0);
                assert((seq![32u8] + value)[0] == 32);
                assert((seq![32u8] + value).skip(1) =~= value);
            }
        },
    }
}

/// Setting the same name and value twice is the same as setting it once:
/// the list keeps exactly one line for that name, with that value.
pub proof fn lemma_set_idempotent(h: Seq<Seq<u8>>, name: Seq<u8>, value: Seq<u8>)
    requires
        !contains_seq(name, colon()),
    ensures
        set_model(set_model(h, name, value), name, value) == set_model(h, name, value),
{
    let line = make_line(name, value);
    lemma_make_line_name(name, value);
    lemma_remove_name_push(remove_name(h, name), line, name);
    lemma_remove_name_idempotent(h, name);
}

/// No line kept by a removal bears the removed name.
proof fn lemma_remove_name_no_match(h: Seq<Seq<u8>>, name: Seq<u8>)
    ensures
        forall|k: int| 0 <= k < remove_name(h, name).len() ==> name_of(
            #[trigger] remove_name(h, name)[k],
        ) != name,
    decreases h.len(),
{
    if h.len() == 0 {
    } else {
        lemma_remove_name_no_match(h.skip(1), name);
        if name_of(h[0]) == name {
            assert(remove_name(h, name) == remove_name(h.skip(1), name));
            assert forall|k: int| 0 <= k < remove_name(h, name).len() implies name_of(
                #[trigger] remove_name(h, name)[k],
            ) != name by {
                assert(remove_name(h, name)[k] == remove_name(h.skip(1), name)[k]);
            }
        } else {
            let r = remove_name(h.skip(1), name);
            assert forall|k: int| 0 <= k < (seq![h[0]] + r).len() implies name_of(
                #[trigger] (seq![h[0]] + r)[k],
            ) != name by {
                if k > 0 {
                    assert((seq![h[0]] + r)[k] == r[k - 1]);
                }
            }
        }
    }
}

/// In a list where no earlier line bears `name`, a lookup reaches the line
/// appended at the end.
proof fn lemma_get_model_push(r: Seq<Seq<u8>>, line: Seq<u8>, name: Seq<u8>)
    requires
        forall|k: int| 0 <= k < r.len() ==> name_of(#[trigger] r[k]) != name,
        name_of(line) == name,
    ensures
        get_model(r.push(line), name) == value_of(line),
    decreases r.len(),
{
    if r.len() == 0 {
        assert(r.push(line)[0] == line);
    } else {
        lemma_get_model_push(r.skip(1), line, name);
        assert(r.push(line)[0] == r[0]);
        assert(r.push(line).skip(1) =~= r.skip(1).push(line));
    }
}

/// After a set, looking the name up gives back exactly the trimmed value,
/// whatever the list held before.
pub proof fn lemma_get_after_set(h: Seq<Seq<u8>>, name: Seq<u8>, value: Seq<u8>)
    requires
        !contains_seq(name, colon()),
    ensures
        get_model(set_model(h, name, value), name) == trim_spec(value),
{
    lemma_make_line_name(name, value);
    lemma_remove_name_no_match(h, name);
    lemma_get_model_push(remove_name(h, name), make_line(name, value), name);
}

/// Serializing, parsing the result back, and serializing again gives the
/// same bytes, for any list whose lines hold no CRLF of their own.
pub proof fn lemma_headers_round_trip(h: Seq<Seq<u8>>)
    requires
        forall|k: int| 0 <= k < h.len() ==> !contains_seq(#[trigger] h[k], crlf()),
    ensures
        serialize_model(parse_model(serialize_model(h))) == serialize_model(h),
{
    if h.len() == 0 {
    } else if h.len() == 1 && h[0].len() == 0 {
        assert(serialize_model(h) == h[0]);
        assert(parse_model(serialize_model(h)) =~= Seq::<Seq<u8>>::empty());
    } else {
        lemma_split_join_crlf(h);
        if h.len() == 1 {
            assert(serialize_model(h) == h[0]);
            assert(h[0].len() > 0);
        } else {
            assert(serialize_model(h) == h[0] + crlf() + join_with(h.skip(1), crlf()));
            assert(serialize_model(h).len() > 0);
        }
        assert(parse_model(serialize_model(h)) == h);
    }
}

/// Parsing alone undoes serializing for any non-degenerate list: no line
/// holds a CRLF, and the list is not the single empty line.
pub proof fn lemma_headers_parse_serialize(h: Seq<Seq<u8>>)
    requires
        forall|k: int| 0 <= k < h.len() ==> !contains_seq(#[trigger] h[k], crlf()),
        !(h.len() == 1 && h[0].len() == 0),
    ensures
        parse_model(serialize_model(h)) == h,
{
    if h.len() == 0 {
        assert(parse_model(serialize_model(h)) =~= h);
    } else {
        lemma_split_join_crlf(h);
        if h.len() == 1 {
            assert(serialize_model(h) == h[0]);
        } else {
            assert(serialize_model(h) == h[0] + crlf() + join_with(h.skip(1), crlf()));
            assert(serialize_model(h).len() > 0);
        }
    }
}

} // verus!
