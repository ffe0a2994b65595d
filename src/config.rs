use vstd::prelude::*;
use vstd::string::*;

verus! {

/// ASCII white space as `str::split_ascii_whitespace` splits on it.
pub open spec fn is_ascii_ws(c: char) -> bool {
    c == ' ' || c == '\t' || c == '\n' || c == '\r' || (c as u32) == 0x0C
}

/// The Unicode `White_Space` characters, which `str::trim_start` removes.
pub open spec fn is_white_space(c: char) -> bool {
    let u = c as u32;
    is_ascii_ws(c) || u == 0x0B || u == 0x85 || u == 0xA0 || u == 0x1680 || (0x2000 <= u <= 0x200A) || u
        == 0x2028 || u == 0x2029 || u == 0x202F || u == 0x205F || u == 0x3000
}

/// Whether the first character of `l` that is not white space is `#`.
pub open spec fn is_comment(l: Seq<char>) -> bool
    decreases l.len(),
{
    if l.len() == 0 {
        false
    } else if is_white_space(l[0]) {
        is_comment(l.drop_first())
    } else {
        l[0] == '#'
    }
}

/// How many characters `l` starts with that are not ASCII white space.
pub open spec fn word_len(l: Seq<char>) -> nat
    decreases l.len(),
{
    if l.len() == 0 || is_ascii_ws(l[0]) {
        0
    } else {
        1 + word_len(l.drop_first())
    }
}

/// The maximal runs of `l` that hold no ASCII white space, in order.
pub open spec fn words(l: Seq<char>) -> Seq<Seq<char>>
    decreases l.len(),
    via words_decreases
{
    if l.len() == 0 {
        Seq::empty()
    } else if is_ascii_ws(l[0]) {
        words(l.drop_first())
    } else {
        let k = word_len(l);
        seq![l.subrange(0, k as int)] + words(l.subrange(k as int, l.len() as int))
    }
}

#[via_fn]
proof fn words_decreases(l: Seq<char>) {
    if l.len() > 0 && !is_ascii_ws(l[0]) {
        lemma_word_len_bound(l);
        assert(word_len(l) > 0);
    }
}

/// How many characters `s` starts with before its first line feed.
pub open spec fn line_len(s: Seq<char>) -> nat
    decreases s.len(),
{
    if s.len() == 0 || s[0] == '\n' {
        0
    } else {
        1 + line_len(s.drop_first())
    }
}

/// The arguments a configuration text holds: the words of each line that is not a comment, line
/// after line.
pub open spec fn config_args(s: Seq<char>) -> Seq<Seq<char>>
    decreases s.len(),
{
    let k = line_len(s);
    let line = s.subrange(0, k as int);
    let here = if is_comment(line) {
        Seq::empty()
    } else {
        words(line)
    };
    if k >= s.len() {
        here
    } else {
        here + config_args(s.subrange(k as int + 1, s.len() as int))
    }
}

pub open spec fn str_views(v: Seq<&str>) -> Seq<Seq<char>> {
    Seq::new(v.len(), |i: int| v[i]@)
}

proof fn lemma_line_len_bound(s: Seq<char>)
    ensures
        line_len(s) <= s.len(),
        line_len(s) < s.len() ==> s[line_len(s) as int] == '\n',
        forall|i: int| 0 <= i < line_len(s) ==> s[i] != '\n',
    decreases s.len(),
{
    if s.len() > 0 && s[0] != '\n' {
        lemma_line_len_bound(s.drop_first());
        assert forall|i: int| 0 <= i < line_len(s) implies s[i] != '\n' by {
            if i > 0 {
                assert(s[i] == s.drop_first()[i - 1]);
            }
        }
    }
}

proof fn lemma_word_len_bound(l: Seq<char>)
    ensures
        word_len(l) <= l.len(),
        word_len(l) < l.len() ==> is_ascii_ws(l[word_len(l) as int]),
        forall|i: int| 0 <= i < word_len(l) ==> !is_ascii_ws(#[trigger] l[i]),
    decreases l.len(),
{
    if l.len() > 0 && !is_ascii_ws(l[0]) {
        lemma_word_len_bound(l.drop_first());
        assert forall|i: int| 0 <= i < word_len(l) implies !is_ascii_ws(#[trigger] l[i]) by {
            if i > 0 {
                assert(l[i] == l.drop_first()[i - 1]);
            }
        }
    }
}

fn ascii_ws(c: char) -> (r: bool)
    ensures
        r == is_ascii_ws(c),
{
    c == ' ' || c == '\t' || c == '\n' || c == '\r' || c == '\x0C'
}

fn white_space(c: char) -> (r: bool)
    ensures
        r == is_white_space(c),
{
    let u = c as u32;
    ascii_ws(c) || u == 0x0B || u == 0x85 || u == 0xA0 || u == 0x1680 || (0x2000 <= u && u <= 0x200A) || u
        == 0x2028 || u == 0x2029 || u == 0x202F || u == 0x205F || u == 0x3000
}

/// Parses the config `str`, removing comment lines and splitting the rest into arguments.
pub fn parse<'a>(config: &'a str) -> (r: Vec<&'a str>)
    ensures
        str_views(r@) == config_args(config@),
{
    let ghost s = config@;
    let n = config.unicode_len();
    let mut out: Vec<&'a str> = Vec::new();
    let mut pos: usize = 0;
    proof {
        assert(s.subrange(0, n as int) =~= s);
        assert(str_views(out@) + config_args(s) =~= config_args(s));
    }
    loop
        invariant
            n == s.len(),
            s == config@,
            pos <= n,
            str_views(out@) + config_args(s.subrange(pos as int, n as int)) == config_args(s),
        decreases n - pos,
    {
        let ghost rest = s.subrange(pos as int, n as int);
        // The end of the line.
        let mut e: usize = pos;
        while e < n && config.get_char(e) != '\n'
            invariant
                pos <= e <= n,
                n == s.len(),
                s == config@,
                rest == s.subrange(pos as int, n as int),
                line_len(rest) == (e - pos) + line_len(s.subrange(e as int, n as int)),
            decreases n - e,
        {
            proof {
                let t = s.subrange(e as int, n as int);
                assert(t.drop_first() =~= s.subrange(e + 1, n as int));
            }
            e = e + 1;
        }
        let ghost k = (e - pos) as nat;
        let ghost line = rest.subrange(0, k as int);
        proof {
            assert(line_len(s.subrange(e as int, n as int)) == 0);
            assert(line =~= s.subrange(pos as int, e as int));
        }
        // Whether the line is a comment.
        let mut j: usize = pos;
        while j < e && white_space(config.get_char(j))
            invariant
                pos <= j <= e <= n,
                n == s.len(),
                s == config@,
                line == s.subrange(pos as int, e as int),
                is_comment(line) == is_comment(s.subrange(j as int, e as int)),
            decreases e - j,
        {
            proof {
                assert(s.subrange(j as int, e as int).drop_first() =~= s.subrange(j + 1, e as int));
            }
            j = j + 1;
        }
        let comment = j < e && config.get_char(j) == '#';
        proof {
            if j == e {
                assert(s.subrange(j as int, e as int).len() == 0);
            }
        }
        let ghost start = str_views(out@);
        if !comment {
            let mut i: usize = pos;
            proof {
                assert(s.subrange(pos as int, e as int) =~= line);
                assert(start + words(line) =~= str_views(out@) + words(s.subrange(i as int, e as int)));
            }
            while i < e
                invariant
                    pos <= i <= e <= n,
                    n == s.len(),
                    s == config@,
                    start + words(line) == str_views(out@) + words(s.subrange(i as int, e as int)),
                decreases e - i,
            {
                let ghost t = s.subrange(i as int, e as int);
                if ascii_ws(config.get_char(i)) {
                    proof {
                        assert(t.drop_first() =~= s.subrange(i + 1, e as int));
                    }
                    i = i + 1;
                } else {
                    let mut w: usize = i;
                    while w < e && !ascii_ws(config.get_char(w))
                        invariant
                            i <= w <= e <= n,
                            n == s.len(),
                            s == config@,
                            t == s.subrange(i as int, e as int),
                            word_len(t) == (w - i) + word_len(s.subrange(w as int, e as int)),
                        decreases e - w,
                    {
                        proof {
                            assert(s.subrange(w as int, e as int).drop_first() =~= s.subrange(w + 1, e as int));
                        }
                        w = w + 1;
                    }
                    let piece = config.substring_char(i, w);
                    let ghost before = str_views(out@);
                    out.push(piece);
                    proof {
                        assert(word_len(s.subrange(w as int, e as int)) == 0);
                        assert(t.subrange(0, (w - i) as int) =~= s.subrange(i as int, w as int));
                        assert(t.subrange((w - i) as int, t.len() as int) =~= s.subrange(w as int, e as int));
                        assert(str_views(out@) =~= before.push(piece@));
                        assert(words(t) == seq![s.subrange(i as int, w as int)] + words(s.subrange(w as int, e as int)));
                        assert(before + words(t) =~= str_views(out@) + words(s.subrange(w as int, e as int)));
                    }
                    i = w;
                }
            }
            proof {
                assert(words(s.subrange(i as int, e as int)) =~= Seq::<Seq<char>>::empty());
                assert(str_views(out@) =~= start + words(line));
            }
        } else {
            proof {
                assert(s.subrange(j as int, e as int)[0] == s[j as int]);
            }
        }
        proof {
            lemma_line_len_bound(rest);
            let here = if is_comment(line) {
                Seq::<Seq<char>>::empty()
            } else {
                words(line)
            };
            assert(str_views(out@) == start + here) by {
                if is_comment(line) {
                    assert(str_views(out@) =~= start);
                    assert(start + here =~= start);
                }
            }
            if k < rest.len() {
                assert(rest.subrange(k as int + 1, rest.len() as int) =~= s.subrange(e + 1, n as int));
                assert(config_args(rest) == here + config_args(s.subrange(e + 1, n as int)));
            } else {
                assert(config_args(rest) == here);
            }
        }
        if e >= n {
            proof {
                assert(str_views(out@) =~= config_args(s));
            }
            return out;
        }
        proof {
            assert(str_views(out@) + config_args(s.subrange(e + 1, n as int)) =~= start + (
            (if is_comment(line) {
                Seq::<Seq<char>>::empty()
            } else {
                words(line)
            }) + config_args(s.subrange(e + 1, n as int))));
        }
        pos = e + 1;
    }
}

/// Parses the config `str` into arguments, as [`parse`] does.
pub fn parse_config<'a>(config: &'a str) -> (r: Vec<&'a str>)
    ensures
        str_views(r@) == config_args(config@),
{
    parse(config)
}

} // verus!
