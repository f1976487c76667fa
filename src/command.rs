use vstd::prelude::*;
use crate::codec::{be_bytes, be_value, lemma_be_round_trip, push_be, read_be};
use crate::error::KvsError;

verus! {

/// A command of the store: a write of a value under a key, or a removal of a key.
#[derive(Debug, Clone, PartialEq, Eq)]
pub enum CommandData {
    Put { key: Vec<u8>, value: Vec<u8> },
    Remove { key: Vec<u8> },
}

/// What a command says, over plain byte sequences.
pub enum CommandView {
    Put { key: Seq<u8>, value: Seq<u8> },
    Remove { key: Seq<u8> },
}

impl View for CommandData {
    type V = CommandView;

    open spec fn view(&self) -> CommandView {
        match self {
            CommandData::Put { key, value } => CommandView::Put { key: key@, value: value@ },
            CommandData::Remove { key } => CommandView::Remove { key: key@ },
        }
    }
}

impl CommandView {
    pub open spec fn key(self) -> Seq<u8> {
        match self {
            CommandView::Put { key, .. } => key,
            CommandView::Remove { key } => key,
        }
    }
}

impl CommandData {
    /// The key the command is about.
    pub fn get_key(&self) -> (r: &Vec<u8>)
        ensures
            r@ == self@.key(),
    {
        match self {
            CommandData::Put { key, .. } => key,
            CommandData::Remove { key } => key,
        }
    }

    /// A copy of the key the command is about.
    pub fn get_key_clone(&self) -> (r: Vec<u8>)
        ensures
            r@ == self@.key(),
    {
        let k = self.get_key();
        let r = k.clone();
        assert(r@ =~= k@);
        r
    }
}

/// The body of a command's frame: a tag (0 for `Put`, 1 for `Remove`), the
/// key's length in eight bytes, the key, and for `Put` the value.
pub open spec fn body_of(c: CommandView) -> Seq<u8> {
    match c {
        CommandView::Put { key, value } => seq![0u8] + be_bytes(key.len() as u64) + key + value,
        CommandView::Remove { key } => seq![1u8] + be_bytes(key.len() as u64) + key,
    }
}

/// A command's frame: the length of its body in eight bytes, then the body.
#[verifier::opaque]
pub open spec fn frame_of(c: CommandView) -> Seq<u8> {
    be_bytes(body_of(c).len() as u64) + body_of(c)
}

/// The frames of a sequence of commands, one after another.
pub open spec fn frames_of(cs: Seq<CommandView>) -> Seq<u8>
    decreases cs.len(),
{
    if cs.len() == 0 {
        Seq::empty()
    } else {
        frame_of(cs[0]) + frames_of(cs.drop_first())
    }
}

pub open spec fn parse_body(b: Seq<u8>) -> Option<CommandView> {
    if b.len() < 9 {
        None
    } else {
        let kl = be_value(b.subrange(1, 9)) as int;
        if kl > b.len() - 9 {
            None
        } else if b[0] == 0 {
            Some(CommandView::Put { key: b.subrange(9, 9 + kl), value: b.subrange(9 + kl, b.len() as int) })
        } else if b[0] == 1 && 9 + kl == b.len() {
            Some(CommandView::Remove { key: b.subrange(9, 9 + kl) })
        } else {
            None
        }
    }
}

/// The command framed at the start of `z`, and the length of its frame.
#[verifier::opaque]
pub open spec fn parse_frame(z: Seq<u8>) -> Option<(CommandView, int)> {
    if z.len() < 8 {
        None
    } else {
        let l = be_value(z.subrange(0, 8)) as int;
        if l > z.len() - 8 {
            None
        } else {
            match parse_body(z.subrange(8, 8 + l)) {
                Some(c) => Some((c, 8 + l)),
                None => None,
            }
        }
    }
}

/// The commands framed one after another in `z`, if `z` is exactly such frames.
pub open spec fn parse_all(z: Seq<u8>) -> Option<Seq<CommandView>>
    decreases z.len(),
{
    if z.len() == 0 {
        Some(Seq::empty())
    } else {
        match parse_frame(z) {
            Some((c, n)) => if 0 < n <= z.len() {
                match parse_all(z.skip(n)) {
                    Some(cs) => Some(seq![c] + cs),
                    None => None,
                }
            } else {
                None
            },
            None => None,
        }
    }
}

/// The body's length fits in the eight bytes that frame it.
pub open spec fn frameable(c: CommandView) -> bool {
    body_of(c).len() <= u64::MAX
}

pub open spec fn all_frameable(cs: Seq<CommandView>) -> bool {
    forall|i: int| 0 <= i < cs.len() ==> frameable(#[trigger] cs[i])
}

pub proof fn lemma_parse_frame(c: CommandView, rest: Seq<u8>)
    requires
        frameable(c),
    ensures
        parse_frame(frame_of(c) + rest) == Some((c, frame_of(c).len() as int)),
        frame_of(c).len() > 8,
{
    reveal(frame_of);
    reveal(parse_frame);
    let b = body_of(c);
    let z = frame_of(c) + rest;
    lemma_be_round_trip(b.len() as u64);
    assert(z.subrange(0, 8) =~= be_bytes(b.len() as u64));
    assert(z.subrange(8, 8 + b.len() as int) =~= b);
    let k = c.key();
    lemma_be_round_trip(k.len() as u64);
    assert(b.subrange(1, 9) =~= be_bytes(k.len() as u64));
    assert(b.subrange(9, 9 + k.len() as int) =~= k);
    match c {
        CommandView::Put { key, value } => {
            assert(b.subrange(9 + key.len() as int, b.len() as int) =~= value);
        },
        CommandView::Remove { key } => {},
    }
}

pub proof fn lemma_parse_all(cs: Seq<CommandView>)
    requires
        all_frameable(cs),
    ensures
        parse_all(frames_of(cs)) == Some(cs),
    decreases cs.len(),
{
    if cs.len() > 0 {
        let c = cs[0];
        let t = cs.drop_first();
        let z = frames_of(cs);
        let f = frame_of(c);
        let n = f.len() as int;
        assert(z == f + frames_of(t));
        assert(frameable(c));
        lemma_parse_frame(c, frames_of(t));
        assert(all_frameable(t)) by {
            assert forall|i: int| 0 <= i < t.len() implies frameable(#[trigger] t[i]) by {
                assert(t[i] == cs[i + 1]);
            }
        }
        lemma_parse_all(t);
        assert(z.skip(n) =~= frames_of(t));
        assert(parse_frame(z) == Some((c, n)));
        assert(0 < n <= z.len());
        assert(seq![c] + t =~= cs);
        assert(parse_all(z) == Some(seq![c] + t));
    }
}

pub proof fn lemma_frames_push(cs: Seq<CommandView>, c: CommandView)
    ensures
        frames_of(cs.push(c)) == frames_of(cs) + frame_of(c),
    decreases cs.len(),
{
    if cs.len() == 0 {
        assert(cs.push(c).drop_first() =~= Seq::<CommandView>::empty());
        assert(frames_of(Seq::<CommandView>::empty()) == Seq::<u8>::empty());
        assert(cs.push(c)[0] == c);
        assert(frames_of(cs.push(c)) =~= frame_of(c));
    } else {
        lemma_frames_push(cs.drop_first(), c);
        assert(cs.push(c).drop_first() =~= cs.drop_first().push(c));
        assert(frames_of(cs.push(c)) =~= frames_of(cs) + frame_of(c));
    }
}

pub proof fn lemma_frames_concat(a: Seq<CommandView>, b: Seq<CommandView>)
    ensures
        frames_of(a + b) == frames_of(a) + frames_of(b),
    decreases a.len(),
{
    if a.len() == 0 {
        assert(a + b =~= b);
        assert(frames_of(a) + frames_of(b) =~= frames_of(b));
    } else {
        lemma_frames_concat(a.drop_first(), b);
        assert((a + b).drop_first() =~= a.drop_first() + b);
        assert((a + b)[0] == a[0]);
        assert(frames_of(a + b) =~= frames_of(a) + frames_of(b));
    }
}

/// `r` answers a lookup of `key` in `zone`: the last command with that key,
/// where `zone` is exactly a run of frames.
pub open spec fn zone_answer(zone: Seq<u8>, key: Seq<u8>, r: Result<Option<CommandData>, KvsError>) -> bool {
    match parse_all(zone) {
        Some(cs) => r matches Ok(o) && match last_with_key(cs, key) {
            Some(c) => o matches Some(d) && d@ == c,
            None => o is None,
        },
        None => r == Err::<Option<CommandData>, KvsError>(KvsError::Decode),
    }
}

pub open spec fn views(v: Seq<CommandData>) -> Seq<CommandView> {
    v.map_values(|c: CommandData| c@)
}

/// The last of `cs` whose key is `key`.
pub open spec fn last_with_key(cs: Seq<CommandView>, key: Seq<u8>) -> Option<CommandView>
    decreases cs.len(),
{
    if cs.len() == 0 {
        None
    } else if cs.last().key() == key {
        Some(cs.last())
    } else {
        last_with_key(cs.drop_last(), key)
    }
}

pub(crate) fn copy_range(b: &[u8], from: usize, to: usize) -> (r: Vec<u8>)
    requires
        from <= to <= b@.len(),
    ensures
        r@ == b@.subrange(from as int, to as int),
{
    let mut r: Vec<u8> = Vec::new();
    let mut i = from;
    while i < to
        invariant
            from <= i <= to,
            to <= b@.len(),
            r@ == b@.subrange(from as int, i as int),
        decreases to - i,
    {
        r.push(b[i]);
        i = i + 1;
        assert(r@ =~= b@.subrange(from as int, i as int));
    }
    r
}

fn append_bytes(out: &mut Vec<u8>, b: &Vec<u8>)
    ensures
        final(out)@ == old(out)@ + b@,
{
    let mut i: usize = 0;
    while i < b.len()
        invariant
            i <= b@.len(),
            out@ == old(out)@ + b@.subrange(0, i as int),
        decreases b.len() - i,
    {
        out.push(b[i]);
        i = i + 1;
        assert(out@ =~= old(out)@ + b@.subrange(0, i as int));
    }
    assert(b@.subrange(0, b@.len() as int) =~= b@);
}

impl CommandData {
    /// Appends the frame of this command to `out`.
    pub fn write_to(&self, out: &mut Vec<u8>)
        ensures
            final(out)@ == old(out)@ + frame_of(self@),
    {
        let mut body: Vec<u8> = Vec::new();
        match self {
            CommandData::Put { key, value } => {
                body.push(0u8);
                push_be(&mut body, key.len() as u64);
                append_bytes(&mut body, key);
                append_bytes(&mut body, value);
            },
            CommandData::Remove { key } => {
                body.push(1u8);
                push_be(&mut body, key.len() as u64);
                append_bytes(&mut body, key);
            },
        }
        assert(body@ =~= body_of(self@));
        reveal(frame_of);
        push_be(out, body.len() as u64);
        append_bytes(out, &body);
        assert(final(out)@ =~= old(out)@ + frame_of(self@));
    }

    /// The command framed at `pos` in `zone`, and the position just after its frame.
    pub fn unpack_at(zone: &[u8], pos: usize) -> (r: Option<(CommandData, usize)>)
        requires
            pos <= zone@.len(),
        ensures
            match parse_frame(zone@.skip(pos as int)) {
                Some((c, n)) => r matches Some((d, next)) && d@ == c && next == pos + n,
                None => r is None,
            },
            r matches Some((_, next)) ==> pos < next <= zone@.len(),
    {
        reveal(parse_frame);
        let ghost z = zone@.skip(pos as int);
        let len = zone.len();
        if len - pos < 8 {
            return None;
        }
        assert(zone@.subrange(pos as int, pos + 8) =~= z.subrange(0, 8));
        let l = read_be(zone, pos);
        if l > (len - pos - 8) as u64 {
            return None;
        }
        let start = pos + 8;
        let end = start + l as usize;
        let ghost b = z.subrange(8, 8 + l as int);
        assert(zone@.subrange(start as int, end as int) =~= b);
        if l < 9 {
            return None;
        }
        assert(zone@.subrange(start + 1, start + 9) =~= b.subrange(1, 9));
        let kl = read_be(zone, start + 1);
        if kl > l - 9 {
            return None;
        }
        let key_end = start + 9 + kl as usize;
        let key = copy_range(zone, start + 9, key_end);
        assert(key@ =~= b.subrange(9, 9 + kl as int));
        let tag = zone[start];
        assert(tag == b[0]);
        if tag == 0 {
            let value = copy_range(zone, key_end, end);
            assert(value@ =~= b.subrange(9 + kl as int, b.len() as int));
            Some((CommandData::Put { key, value }, end))
        } else if tag == 1 && key_end == end {
            Some((CommandData::Remove { key }, end))
        } else {
            None
        }
    }

    /// The commands framed one after another in `zone`; `None` where `zone` is
    /// not exactly such frames.
    pub fn from_zone_to_vec(zone: &[u8]) -> (r: Option<Vec<CommandData>>)
        ensures
            match parse_all(zone@) {
                Some(cs) => r matches Some(v) && views(v@) == cs,
                None => r is None,
            },
    {
        let mut out: Vec<CommandData> = Vec::new();
        let mut pos: usize = 0;
        assert(zone@.skip(0) =~= zone@);
        while pos < zone.len()
            invariant
                pos <= zone@.len(),
                parse_all(zone@) == match parse_all(zone@.skip(pos as int)) {
                    Some(t) => Some(views(out@) + t),
                    None => None,
                },
            decreases zone.len() - pos,
        {
            let ghost z = zone@.skip(pos as int);
            match CommandData::unpack_at(zone, pos) {
                Some((c, next)) => {
                    let ghost n = next - pos;
                    if next <= pos {
                        return None;
                    }
                    proof {
                        assert(zone@.skip(next as int) =~= z.skip(n));
                        assert(views(out@.push(c)) =~= views(out@).push(c@));
                        match parse_all(z.skip(n)) {
                            Some(t) => {
                                assert(views(out@).push(c@) + t =~= views(out@) + (seq![c@] + t));
                            },
                            None => {},
                        }
                    }
                    out.push(c);
                    pos = next;
                },
                None => {
                    return None;
                },
            }
        }
        assert(zone@.skip(pos as int) =~= Seq::<u8>::empty());
        assert(views(out@) + Seq::<CommandView>::empty() =~= views(out@));
        Some(out)
    }

    /// The last command in `zone` whose key is `key`. Fails where `zone` is not
    /// exactly a run of frames.
    pub fn find_key_with_zone_unpack(zone: &[u8], key: &[u8]) -> (r: Result<Option<CommandData>, KvsError>)
        ensures
            zone_answer(zone@, key@, r),
    {
        let decoded = CommandData::from_zone_to_vec(zone);
        let all = match decoded {
            Some(v) => v,
            None => return Err(KvsError::Decode),
        };
        let ghost cs = views(all@);
        assert(parse_all(zone@) == Some(cs));
        let mut all = all;
        while all.len() > 0
            invariant
                parse_all(zone@) == Some(cs),
                last_with_key(cs, key@) == last_with_key(views(all@), key@),
            decreases all.len(),
        {
            let ghost before = views(all@);
            let c = all.pop().unwrap();
            assert(before.last() == c@);
            assert(before.drop_last() =~= views(all@));
            if crate::bytes_order::bytes_eq(c.get_key().as_slice(), key) {
                assert(last_with_key(before, key@) == Some(c@));
                let ghost cv = c@;
                let res: Result<Option<CommandData>, KvsError> = Ok(Some(c));
                assert(last_with_key(cs, key@) == Some(cv));
                return res;
            }
        }
        Ok(None)
    }
}

} // verus!
