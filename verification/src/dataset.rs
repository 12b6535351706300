//! Dataset text handling: line splitting, tokenizing, integer parsing and
//! substring search, each proved against a direct specification, plus the
//! `Graph` adjacency structure that a dataset loads into.

use crate::node::Action;
use crate::node::Node;
use vstd::prelude::*;

verus! {

/// A byte that separates tokens within a data line: ASCII whitespace, and
/// the comma where `virgole` is set.
pub open spec fn separatore(b: u8, virgole: bool) -> bool {
    b == 32 || b == 9 || b == 13 || b == 11 || b == 12 || b == 10 || (virgole && b == 44)
}

/// The length of the leading token of `s`: the number of bytes before the
/// first separator.
pub open spec fn lunghezza_token(s: Seq<u8>, virgole: bool) -> nat
    decreases s.len(),
{
    if s.len() == 0 || separatore(s[0], virgole) {
        0
    } else {
        1 + lunghezza_token(s.drop_first(), virgole)
    }
}

/// The tokens of a line: the maximal runs of non-separator bytes.
pub open spec fn spec_tokens(s: Seq<u8>, virgole: bool) -> Seq<Seq<u8>>
    decreases s.len(),
    via spec_tokens_decreases
{
    if s.len() == 0 {
        seq![]
    } else if separatore(s[0], virgole) {
        spec_tokens(s.drop_first(), virgole)
    } else {
        let l = lunghezza_token(s, virgole) as int;
        seq![s.take(l)] + spec_tokens(s.skip(l), virgole)
    }
}

/// The views of a sequence of byte vectors.
pub open spec fn viste(s: Seq<Vec<u8>>) -> Seq<Seq<u8>> {
    s.map(|i: int, v: Vec<u8>| v@)
}

/// The leading token never runs past the end of the line.
proof fn lemma_lunghezza_limite(s: Seq<u8>, virgole: bool)
    ensures
        lunghezza_token(s, virgole) <= s.len(),
    decreases s.len(),
{
    if s.len() > 0 && !separatore(s[0], virgole) {
        lemma_lunghezza_limite(s.drop_first(), virgole);
    }
}

#[via_fn]
proof fn spec_tokens_decreases(s: Seq<u8>, virgole: bool) {
    lemma_lunghezza_limite(s, virgole);
}

/// The leading token is as long as the run of non-separator bytes.
proof fn lemma_lunghezza_token(s: Seq<u8>, virgole: bool, l: int)
    requires
        0 <= l <= s.len(),
        forall|x: int| 0 <= x < l ==> !separatore(#[trigger] s[x], virgole),
        l == s.len() || separatore(s[l], virgole),
    ensures
        lunghezza_token(s, virgole) == l,
    decreases l,
{
    if l > 0 {
        lemma_lunghezza_token(s.drop_first(), virgole, l - 1);
    }
}

/// Dropping a leading separator keeps the tokens; this names the two
/// unfoldings the tokenizer loop relies on.
proof fn lemma_tokens_passo(s: Seq<u8>, virgole: bool)
    ensures
        s.len() > 0 && separatore(s[0], virgole) ==> spec_tokens(s, virgole) == spec_tokens(
            s.drop_first(),
            virgole,
        ),
        (s.len() > 0 && !separatore(s[0], virgole)) ==> spec_tokens(s, virgole) == seq![
            s.take(lunghezza_token(s, virgole) as int),
        ] + spec_tokens(s.skip(lunghezza_token(s, virgole) as int), virgole),
{
}

exec fn e_separatore(b: u8, virgole: bool) -> (r: bool)
    ensures
        r == separatore(b, virgole),
{
    b == 32 || b == 9 || b == 13 || b == 11 || b == 12 || b == 10 || (virgole && b == 44)
}

/// Splits a line into its tokens.
pub fn tokenizza(linea: &Vec<u8>, virgole: bool) -> (r: Vec<Vec<u8>>)
    ensures
        viste(r@) == spec_tokens(linea@, virgole),
{
    let mut r: Vec<Vec<u8>> = Vec::new();
    let mut i: usize = 0;
    proof {
        assert(linea@.skip(0) =~= linea@);
        assert(viste(r@) =~= Seq::<Seq<u8>>::empty());
    }
    while i < linea.len()
        invariant
            0 <= i <= linea@.len(),
            viste(r@) + spec_tokens(linea@.skip(i as int), virgole) == spec_tokens(
                linea@,
                virgole,
            ),
        decreases linea@.len() - i,
    {
        let b = linea[i];
        if e_separatore(b, virgole) {
            proof {
                assert(linea@.skip(i as int).drop_first() =~= linea@.skip(i + 1));
            }
            i = i + 1;
        } else {
            let inizio = i;
            let mut tok: Vec<u8> = Vec::new();
            tok.push(b);
            i = i + 1;
            while i < linea.len() && !e_separatore(linea[i], virgole)
                invariant
                    inizio < linea@.len(),
                    inizio < i <= linea@.len(),
                    tok@ == linea@.subrange(inizio as int, i as int),
                    forall|x: int|
                        inizio <= x < i ==> !separatore(#[trigger] linea@[x], virgole),
                decreases linea@.len() - i,
            {
                let c = linea[i];
                tok.push(c);
                proof {
                    assert(linea@.subrange(inizio as int, i + 1) =~= linea@.subrange(
                        inizio as int,
                        i as int,
                    ).push(linea@[i as int]));
                }
                i = i + 1;
            }
            proof {
                let resto = linea@.skip(inizio as int);
                let l = (i - inizio) as int;
                assert forall|x: int| 0 <= x < l implies !separatore(
                    #[trigger] resto[x],
                    virgole,
                ) by {
                    assert(resto[x] == linea@[inizio + x]);
                }
                if i < linea@.len() {
                    assert(resto[l] == linea@[i as int]);
                }
                lemma_lunghezza_token(resto, virgole, l);
                lemma_tokens_passo(resto, virgole);
                assert(resto.take(l) =~= linea@.subrange(inizio as int, i as int));
                assert(resto.skip(l) =~= linea@.skip(i as int));
                assert(viste(r@.push(tok)) =~= viste(r@).push(tok@));
                assert(viste(r@).push(tok@) + spec_tokens(linea@.skip(i as int), virgole)
                    =~= viste(r@) + (seq![tok@] + spec_tokens(linea@.skip(i as int), virgole)));
            }
            r.push(tok);
        }
    }
    proof {
        assert(linea@.skip(linea@.len() as int) =~= Seq::<u8>::empty());
        assert(spec_tokens(linea@.skip(linea@.len() as int), virgole) =~= Seq::<Seq<u8>>::empty());
        assert(viste(r@) + Seq::<Seq<u8>>::empty() =~= viste(r@));
    }
    r
}

/// An ASCII decimal digit.
pub open spec fn cifra(b: u8) -> bool {
    48 <= b <= 57
}

/// Every byte of `s` is a digit.
pub open spec fn tutte_cifre(s: Seq<u8>) -> bool {
    forall|i: int| 0 <= i < s.len() ==> cifra(#[trigger] s[i])
}

/// The value of a digit string read in base ten.
pub open spec fn valore_cifre(s: Seq<u8>) -> nat
    decreases s.len(),
{
    if s.len() == 0 {
        0
    } else {
        valore_cifre(s.drop_last()) * 10 + (s.last() - 48) as nat
    }
}

/// The value of a digit string bounds the value of each of its prefixes.
proof fn lemma_valore_prefisso(s: Seq<u8>, i: int)
    requires
        tutte_cifre(s),
        0 <= i <= s.len(),
    ensures
        valore_cifre(s.take(i)) <= valore_cifre(s),
    decreases s.len(),
{
    if i < s.len() {
        assert(s.take(i) =~= s.drop_last().take(i));
        assert(tutte_cifre(s.drop_last())) by {
            assert(forall|x: int|
                0 <= x < s.len() - 1 ==> #[trigger] s.drop_last()[x] == s[x]);
        }
        lemma_valore_prefisso(s.drop_last(), i);
        assert(valore_cifre(s) >= valore_cifre(s.drop_last()));
    } else {
        assert(s.take(i) =~= s);
    }
}

/// What `str::parse::<u32>` accepts: an optional leading `+`, then one or
/// more digits whose value fits in `u32`.
pub open spec fn spec_parse_u32(s: Seq<u8>) -> Option<u32> {
    let cifre = if s.len() > 0 && s[0] == 43 {
        s.drop_first()
    } else {
        s
    };
    if cifre.len() > 0 && tutte_cifre(cifre) && valore_cifre(cifre) <= u32::MAX as nat {
        Some(valore_cifre(cifre) as u32)
    } else {
        None
    }
}

/// What `str::parse::<i32>` accepts: an optional sign, then one or more
/// digits whose signed value fits in `i32`.
pub open spec fn spec_parse_i32(s: Seq<u8>) -> Option<i32> {
    if s.len() > 0 && s[0] == 45 {
        let cifre = s.drop_first();
        if cifre.len() > 0 && tutte_cifre(cifre) && valore_cifre(cifre) <= 0x8000_0000 {
            Some((0 - valore_cifre(cifre) as int) as i32)
        } else {
            None
        }
    } else {
        let cifre = if s.len() > 0 && s[0] == 43 {
            s.drop_first()
        } else {
            s
        };
        if cifre.len() > 0 && tutte_cifre(cifre) && valore_cifre(cifre) <= i32::MAX as nat {
            Some(valore_cifre(cifre) as i32)
        } else {
            None
        }
    }
}

/// Reads the digits of `s` from position `inizio` on, up to `limite`.
/// Returns the value when every remaining byte is a digit and the value is
/// within the limit, and nothing otherwise.
fn leggi_cifre(s: &Vec<u8>, inizio: usize, limite: u32) -> (r: Option<u32>)
    requires
        inizio <= s@.len(),
    ensures
        ({
            let cifre = s@.skip(inizio as int);
            match r {
                Some(v) => tutte_cifre(cifre) && valore_cifre(cifre) == v && v <= limite,
                None => !tutte_cifre(cifre) || valore_cifre(cifre) > limite,
            }
        }),
{
    let ghost cifre = s@.skip(inizio as int);
    let mut val: u32 = 0;
    let mut i: usize = inizio;
    while i < s.len()
        invariant
            inizio <= i <= s@.len(),
            cifre == s@.skip(inizio as int),
            tutte_cifre(cifre.take(i - inizio)),
            val == valore_cifre(cifre.take(i - inizio)),
            val <= limite,
        decreases s@.len() - i,
    {
        let b = s[i];
        if b < 48 || b > 57 {
            proof {
                assert(cifre[i - inizio] == s@[i as int]);
                assert(!cifra(cifre[i - inizio]));
            }
            return None;
        }
        let esteso: u64 = (val as u64) * 10 + ((b - 48) as u64);
        proof {
            assert(cifre.take(i + 1 - inizio).drop_last() =~= cifre.take(i - inizio));
            assert(cifre.take(i + 1 - inizio).last() == s@[i as int]);
        }
        if esteso > limite as u64 {
            proof {
                if tutte_cifre(cifre) {
                    lemma_valore_prefisso(cifre, i + 1 - inizio);
                }
            }
            return None;
        }
        val = esteso as u32;
        i = i + 1;
    }
    proof {
        assert(cifre.take(s@.len() - inizio) =~= cifre);
    }
    Some(val)
}

/// Parses an unsigned 32-bit integer exactly as `str::parse::<u32>` does on
/// ASCII input.
pub fn parse_u32(s: &Vec<u8>) -> (r: Option<u32>)
    ensures
        r == spec_parse_u32(s@),
{
    let inizio: usize = if s.len() > 0 && s[0] == 43 {
        1
    } else {
        0
    };
    if s.len() == inizio {
        proof {
            if inizio == 0 {
                assert(s@.len() == 0);
            } else {
                assert(s@.drop_first().len() == 0);
            }
        }
        return None;
    }
    proof {
        if inizio == 1 {
            assert(s@.skip(1) =~= s@.drop_first());
        } else {
            assert(s@.skip(0) =~= s@);
        }
    }
    leggi_cifre(s, inizio, u32::MAX)
}

/// Parses a signed 32-bit integer exactly as `str::parse::<i32>` does on
/// ASCII input.
pub fn parse_i32(s: &Vec<u8>) -> (r: Option<i32>)
    ensures
        r == spec_parse_i32(s@),
{
    if s.len() > 0 && s[0] == 45 {
        proof {
            assert(s@.skip(1) =~= s@.drop_first());
        }
        if s.len() == 1 {
            return None;
        }
        match leggi_cifre(s, 1, 0x8000_0000u32) {
            Some(v) => {
                if v == 0x8000_0000u32 {
                    Some(i32::MIN)
                } else {
                    Some(0i32 - (v as i32))
                }
            },
            None => None,
        }
    } else {
        let inizio: usize = if s.len() > 0 && s[0] == 43 {
            1
        } else {
            0
        };
        if s.len() == inizio {
            proof {
                if inizio == 0 {
                    assert(s@.len() == 0);
                } else {
                    assert(s@.drop_first().len() == 0);
                }
            }
            return None;
        }
        proof {
            if inizio == 1 {
                assert(s@.skip(1) =~= s@.drop_first());
            } else {
                assert(s@.skip(0) =~= s@);
            }
        }
        match leggi_cifre(s, inizio, i32::MAX as u32) {
            Some(v) => Some(v as i32),
            None => None,
        }
    }
}

/// `n` occurs as a contiguous run of bytes inside `h`.
pub open spec fn contiene(h: Seq<u8>, n: Seq<u8>) -> bool {
    exists|i: int| 0 <= i && i + n.len() <= h.len() && (#[trigger] h.subrange(i, i + n.len())) == n
}

/// Substring search: whether `n` occurs inside `h`.
pub fn contiene_sub(h: &Vec<u8>, n: &Vec<u8>) -> (r: bool)
    ensures
        r == contiene(h@, n@),
{
    if n.len() == 0 {
        proof {
            assert(h@.subrange(0, 0 + n@.len() as int) =~= n@);
            assert(0 <= 0 && 0 + n@.len() <= h@.len() && h@.subrange(0, 0 + n@.len() as int) == n@);
        }
        return true;
    }
    if n.len() > h.len() {
        proof {
            if contiene(h@, n@) {
                let i = choose|i: int|
                    0 <= i && i + n@.len() <= h@.len() && (#[trigger] h@.subrange(
                        i,
                        i + n@.len(),
                    )) == n@;
                assert(false);
            }
        }
        return false;
    }
    let hl: usize = h.len();
    let mut i: usize = 0;
    while i <= h.len() - n.len()
        invariant
            h@.len() == hl,
            1 <= n@.len() <= h@.len(),
            0 <= i <= h@.len() - n@.len() + 1,
            forall|x: int|
                0 <= x < i ==> (#[trigger] h@.subrange(x, x + n@.len())) != n@,
        decreases h@.len() - n@.len() + 1 - i,
    {
        let mut j: usize = 0;
        let mut uguale = true;
        while j < n.len()
            invariant
                h@.len() == hl,
                1 <= n@.len(),
                0 <= j <= n@.len(),
                i + n@.len() <= h@.len(),
                uguale ==> forall|x: int| 0 <= x < j ==> h@[i + x] == n@[x],
                !uguale ==> h@.subrange(i as int, i + n@.len()) != n@,
            decreases n@.len() - j,
        {
            proof {
                assert(i + j < h@.len());
            }
            if h[i + j] != n[j] {
                proof {
                    assert(h@.subrange(i as int, i + n@.len())[j as int] == h@[i + j]);
                }
                uguale = false;
                j = n.len();
            } else {
                j = j + 1;
            }
        }
        if uguale {
            proof {
                assert(h@.subrange(i as int, i + n@.len()) =~= n@);
            }
            return true;
        }
        i = i + 1;
    }
    proof {
        assert forall|x: int| 0 <= x && x + n@.len() <= h@.len() implies (#[trigger] h@.subrange(
            x,
            x + n@.len(),
        )) != n@ by {
            assert(x < i);
        }
    }
    false
}

/// The first line break at or after position `i`, or the end of the data.
pub open spec fn fine_linea(d: Seq<u8>, i: int) -> int
    decreases d.len() - i,
{
    if !(0 <= i < d.len()) {
        d.len() as int
    } else if d[i] == 10 {
        i
    } else {
        fine_linea(d, i + 1)
    }
}

/// A line with a trailing carriage return removed.
pub open spec fn senza_cr(s: Seq<u8>) -> Seq<u8> {
    if s.len() > 0 && s.last() == 13 {
        s.drop_last()
    } else {
        s
    }
}

/// The lines of `d` from position `i` on, split at line feeds, each without
/// its terminator; a final fragment without a terminator counts as a line.
pub open spec fn spec_linee(d: Seq<u8>, i: int) -> Seq<Seq<u8>>
    decreases d.len() - i,
    via spec_linee_decreases
{
    if !(0 <= i < d.len()) {
        seq![]
    } else {
        let e = fine_linea(d, i);
        if e < d.len() {
            seq![senza_cr(d.subrange(i, e))] + spec_linee(d, e + 1)
        } else {
            seq![senza_cr(d.subrange(i, e))]
        }
    }
}

/// `fine_linea` stays between its argument and the end of the data.
proof fn lemma_fine_linea_limiti(d: Seq<u8>, i: int)
    requires
        0 <= i <= d.len(),
    ensures
        i <= fine_linea(d, i) <= d.len(),
    decreases d.len() - i,
{
    if i < d.len() && d[i] != 10 {
        lemma_fine_linea_limiti(d, i + 1);
    }
}

#[via_fn]
proof fn spec_linee_decreases(d: Seq<u8>, i: int) {
    if 0 <= i < d.len() {
        lemma_fine_linea_limiti(d, i);
    }
}

proof fn lemma_fine_linea(d: Seq<u8>, i: int, e: int)
    requires
        0 <= i <= e <= d.len(),
        forall|x: int| i <= x < e ==> d[x] != 10,
        e == d.len() || d[e] == 10,
    ensures
        fine_linea(d, i) == e,
    decreases e - i,
{
    if i < e {
        lemma_fine_linea(d, i + 1, e);
    }
}

/// Splits raw data into its lines.
pub fn dividi_linee(d: &Vec<u8>) -> (r: Vec<Vec<u8>>)
    ensures
        viste(r@) == spec_linee(d@, 0),
{
    let mut r: Vec<Vec<u8>> = Vec::new();
    let mut i: usize = 0;
    while i < d.len()
        invariant
            0 <= i <= d@.len(),
            viste(r@) + spec_linee(d@, i as int) == spec_linee(d@, 0),
        decreases d@.len() - i,
    {
        let mut j: usize = i;
        let mut linea: Vec<u8> = Vec::new();
        while j < d.len() && d[j] != 10
            invariant
                i <= j <= d@.len(),
                linea@ == d@.subrange(i as int, j as int),
                forall|x: int| i <= x < j ==> d@[x] != 10,
            decreases d@.len() - j,
        {
            let b = d[j];
            linea.push(b);
            proof {
                assert(d@.subrange(i as int, j + 1) =~= d@.subrange(i as int, j as int).push(
                    d@[j as int],
                ));
            }
            j = j + 1;
        }
        proof {
            lemma_fine_linea(d@, i as int, j as int);
        }
        if linea.len() > 0 && linea[linea.len() - 1] == 13 {
            linea.pop();
            proof {
                assert(d@.subrange(i as int, j as int).drop_last() =~= linea@);
            }
        }
        proof {
            assert(linea@ == senza_cr(d@.subrange(i as int, j as int)));
            assert(viste(r@.push(linea)) =~= viste(r@).push(linea@));
            if (j as int) < d@.len() {
                assert(spec_linee(d@, i as int) == seq![linea@] + spec_linee(d@, j + 1));
                assert(viste(r@).push(linea@) + spec_linee(d@, j + 1) =~= viste(r@) + (seq![
                    linea@,
                ] + spec_linee(d@, j + 1)));
            } else {
                assert(spec_linee(d@, i as int) == seq![linea@]);
                assert(spec_linee(d@, j + 1) =~= Seq::<Seq<u8>>::empty());
                assert(viste(r@).push(linea@) + spec_linee(d@, j + 1) =~= viste(r@) + seq![
                    linea@,
                ]);
            }
        }
        r.push(linea);
        if j < d.len() {
            i = j + 1;
        } else {
            i = j;
        }
    }
    proof {
        assert(spec_linee(d@, i as int) =~= Seq::<Seq<u8>>::empty());
        assert(viste(r@) + Seq::<Seq<u8>>::empty() =~= viste(r@));
    }
    r
}

/// How a dataset declares its edges: `Directed` and `Undirected` come from a
/// header marker; without a marker the dataset counts as `Labeled`
/// (undirected, with an optional cost column). A graph that has not loaded
/// anything yet is `Nessuno`.
#[derive(Clone, Copy, Debug, PartialEq, Eq, Structural)]
pub enum GraphType {
    Nessuno,
    Directed,
    Undirected,
    Labeled,
}

/// The bytes of the marker `Directed`.
pub open spec fn seq_directed() -> Seq<u8> {
    seq![68u8, 105u8, 114u8, 101u8, 99u8, 116u8, 101u8, 100u8]
}

/// The bytes of the marker `Undirected`.
pub open spec fn seq_undirected() -> Seq<u8> {
    seq![85u8, 110u8, 100u8, 105u8, 114u8, 101u8, 99u8, 116u8, 101u8, 100u8]
}

/// A comment line: any line containing `#`.
pub open spec fn e_commento(l: Seq<u8>) -> bool {
    contiene(l, seq![35u8])
}

/// The graph type declared by the leading comment lines: the first comment
/// line holding a marker decides, `Directed` checked before `Undirected`;
/// without a marker the type is `Labeled`.
pub open spec fn tipo_grafo(linee: Seq<Seq<u8>>, i: int) -> GraphType
    decreases linee.len() - i,
{
    if !(0 <= i < linee.len()) || !e_commento(linee[i]) {
        GraphType::Labeled
    } else if contiene(linee[i], seq_directed()) {
        GraphType::Directed
    } else if contiene(linee[i], seq_undirected()) {
        GraphType::Undirected
    } else {
        tipo_grafo(linee, i + 1)
    }
}

/// The index of the first data line: the first line that is not a comment.
pub open spec fn inizio_dati(linee: Seq<Seq<u8>>, i: int) -> int
    decreases linee.len() - i,
{
    if !(0 <= i < linee.len()) || !e_commento(linee[i]) {
        i
    } else {
        inizio_dati(linee, i + 1)
    }
}

/// The adjacency table padded with empty rows up to `n` entries.
pub open spec fn estendi(az: Seq<Seq<Action>>, n: int) -> Seq<Seq<Action>> {
    if az.len() >= n {
        az
    } else {
        az + Seq::new((n - az.len()) as nat, |x: int| Seq::<Action>::empty())
    }
}

/// The adjacency table with the action `da -> a` of cost `c` appended.
pub open spec fn aggiungi(az: Seq<Seq<Action>>, da: int, a: u32, c: i32) -> Seq<Seq<Action>> {
    az.update(da, az[da].push(Action { risultato: a, costo: c }))
}

/// The exact action `da -> a` with cost `c` is already in the table.
pub open spec fn esiste_azione(az: Seq<Seq<Action>>, da: int, a: u32, c: i32) -> bool {
    0 <= da < az.len() && exists|j: int|
        0 <= j < az[da].len() && (#[trigger] az[da][j]) == (Action { risultato: a, costo: c })
}

/// What a data line contributes: two states, and for labeled graphs an
/// optional third field read as the cost (0 when absent or unreadable).
/// A line that does not fit this shape contributes nothing.
pub open spec fn riga_dati(l: Seq<u8>, tipo: GraphType) -> Option<(u32, u32, i32)> {
    let toks = spec_tokens(l, true);
    if toks.len() < 2 {
        None
    } else {
        match (spec_parse_u32(toks[0]), spec_parse_u32(toks[1])) {
            (Some(da), Some(a)) => {
                let costo = if tipo is Labeled && toks.len() >= 3 {
                    match spec_parse_i32(toks[2]) {
                        Some(c) => c,
                        None => 0i32,
                    }
                } else {
                    0i32
                };
                Some((da, a, costo))
            },
            _ => None,
        }
    }
}

/// The edge count incremented, saturating at the range of `u32`.
pub open spec fn sat_inc_u32(c: int) -> int {
    if c + 1 > u32::MAX {
        u32::MAX as int
    } else {
        c + 1
    }
}

/// One data line folded into the loader state: the table is first extended
/// to cover both states, the forward action is inserted unless the exact
/// (target, cost) pair is present, and for undirected types the reverse
/// action likewise; a new forward action counts one edge for undirected
/// types, and for directed types only when the reverse was already present.
pub open spec fn carica_linea(
    stato: (GraphType, Seq<Seq<Action>>, int),
    l: Seq<u8>,
) -> (GraphType, Seq<Seq<Action>>, int) {
    let (tipo, az, cnt) = stato;
    match riga_dati(l, tipo) {
        None => stato,
        Some((da, a, c)) => {
            if da as int + 1 > usize::MAX as int || a as int + 1 > usize::MAX as int {
                stato
            } else {
                let non_diretto = tipo is Undirected || tipo is Labeled;
                let fe = esiste_azione(az, da as int, a, c);
                let re = esiste_azione(az, a as int, da, c);
                let az1 = estendi(estendi(az, da as int + 1), a as int + 1);
                let az2 = if fe {
                    az1
                } else {
                    aggiungi(az1, da as int, a, c)
                };
                let az3 = if non_diretto && !re {
                    aggiungi(az2, a as int, da, c)
                } else {
                    az2
                };
                let cnt2 = if !fe && (non_diretto || re) {
                    sat_inc_u32(cnt)
                } else {
                    cnt
                };
                (tipo, az3, cnt2)
            }
        },
    }
}

/// The loader state after folding the lines from `i` on.
pub open spec fn carica_da(
    stato: (GraphType, Seq<Seq<Action>>, int),
    linee: Seq<Seq<u8>>,
    i: int,
) -> (GraphType, Seq<Seq<Action>>, int)
    decreases linee.len() - i,
{
    if !(0 <= i < linee.len()) {
        stato
    } else {
        carica_da(carica_linea(stato, linee[i]), linee, i + 1)
    }
}

/// The result of loading raw dataset text on top of an existing table:
/// the declared graph type, the adjacency table, and the edge count.
pub open spec fn spec_carica_su(
    az0: Seq<Seq<Action>>,
    cnt0: int,
    d: Seq<u8>,
) -> (GraphType, Seq<Seq<Action>>, int) {
    let linee = spec_linee(d, 0);
    let tipo = tipo_grafo(linee, 0);
    carica_da((tipo, az0, cnt0), linee, inizio_dati(linee, 0))
}

/// The result of loading raw dataset text into an empty graph.
pub open spec fn spec_carica(d: Seq<u8>) -> (GraphType, Seq<Seq<Action>>, int) {
    spec_carica_su(Seq::empty(), 0, d)
}

/// Every node of the table is a placeholder for its own index (state equal
/// to the index, no predecessor, zero cost and depth) and every action
/// target is a valid index.
pub open spec fn tabella_ok(nodi: Seq<Node>) -> bool {
    forall|i: int|
        0 <= i < nodi.len() ==> {
            let nd = #[trigger] nodi[i];
            &&& nd.stato == i
            &&& nd.genitore is None
            &&& nd.costo_cammino == 0
            &&& nd.profondita == 0
            &&& forall|j: int|
                0 <= j < nd.azioni@.len() ==> (#[trigger] nd.azioni@[j]).risultato
                    < nodi.len()
        }
}

/// An immutable adjacency structure: one node per state, each holding the
/// state's outgoing actions, plus the declared type and the edge count.
pub struct Graph {
    pub gtype: GraphType,
    pub nodi: Vec<Node>,
    pub edge_count: u32,
}

/// A name for what decompressing a gzip stream yields: it is a function of
/// the compressed bytes alone, as is whether decompression succeeds.
pub uninterp spec fn gunzip_of(dati: Seq<u8>) -> Option<Seq<u8>>;

/// Relies on flate2's `GzDecoder` via `Read::read_to_end`: decompressing an
/// in-memory gzip stream; the outcome depends on the input bytes alone.
#[verifier::external_body]
pub(crate) fn gunzip(dati: &Vec<u8>) -> (r: Option<Vec<u8>>)
    ensures
        match r {
            Some(v) => gunzip_of(dati@) == Some(v@),
            None => gunzip_of(dati@) is None,
        },
{
    let mut decodificatore = flate2::read::GzDecoder::new(dati.as_slice());
    let mut fuori: Vec<u8> = Vec::new();
    match std::io::Read::read_to_end(&mut decodificatore, &mut fuori) {
        Ok(_) => Some(fuori),
        Err(_) => None,
    }
}

fn ago_cancelletto() -> (r: Vec<u8>)
    ensures
        r@ == seq![35u8],
{
    let mut r: Vec<u8> = Vec::new();
    r.push(35u8);
    proof {
        assert(r@ =~= seq![35u8]);
    }
    r
}

fn ago_directed() -> (r: Vec<u8>)
    ensures
        r@ == seq_directed(),
{
    let mut r: Vec<u8> = Vec::new();
    r.push(68u8);
    r.push(105u8);
    r.push(114u8);
    r.push(101u8);
    r.push(99u8);
    r.push(116u8);
    r.push(101u8);
    r.push(100u8);
    proof {
        assert(r@ =~= seq_directed());
    }
    r
}

fn ago_undirected() -> (r: Vec<u8>)
    ensures
        r@ == seq_undirected(),
{
    let mut r: Vec<u8> = Vec::new();
    r.push(85u8);
    r.push(110u8);
    r.push(100u8);
    r.push(105u8);
    r.push(114u8);
    r.push(101u8);
    r.push(99u8);
    r.push(116u8);
    r.push(101u8);
    r.push(100u8);
    proof {
        assert(r@ =~= seq_undirected());
    }
    r
}

impl Graph {
    /// The adjacency table: one action list per state.
    pub open spec fn az(&self) -> Seq<Seq<Action>> {
        self.nodi@.map(|i: int, nd: Node| nd.azioni@)
    }

    /// The successor table: one target list per state.
    pub open spec fn adiacenze(&self) -> Seq<Seq<u32>> {
        Seq::new(
            self.nodi@.len(),
            |s: int| self.nodi@[s].azioni@.map(|j: int, a: Action| a.risultato),
        )
    }

    /// The structural invariant the loader establishes.
    pub open spec fn wf(&self) -> bool {
        tabella_ok(self.nodi@)
    }

    /// An empty graph with nothing loaded.
    pub fn new() -> (g: Graph)
        ensures
            g.gtype == GraphType::Nessuno,
            g.nodi@.len() == 0,
            g.edge_count == 0,
            g.wf(),
    {
        Graph { gtype: GraphType::Nessuno, nodi: Vec::new(), edge_count: 0 }
    }

    /// The number of states in the table.
    pub fn num_stati(&self) -> (n: usize)
        ensures
            n == self.nodi@.len(),
    {
        self.nodi.len()
    }

    /// The edge count accumulated by loading.
    pub fn edge_count(&self) -> (c: u32)
        ensures
            c == self.edge_count,
    {
        self.edge_count
    }

    /// A copy of the node table, one placeholder node per state.
    pub fn nodi(&self) -> (r: Vec<Node>)
        ensures
            r@.len() == self.nodi@.len(),
            forall|i: int|
                0 <= i < r@.len() ==> {
                    let nd = #[trigger] r@[i];
                    nd.stato == self.nodi@[i].stato && nd.azioni@ == self.nodi@[i].azioni@
                        && nd.genitore is None && nd.costo_cammino == 0 && nd.profondita == 0
                },
    {
        let mut r: Vec<Node> = Vec::new();
        let mut i: usize = 0;
        while i < self.nodi.len()
            invariant
                0 <= i <= self.nodi@.len(),
                r@.len() == i,
                forall|x: int|
                    0 <= x < i ==> {
                        let nd = #[trigger] r@[x];
                        nd.stato == self.nodi@[x].stato && nd.azioni@ == self.nodi@[x].azioni@
                            && nd.genitore is None && nd.costo_cammino == 0 && nd.profondita
                            == 0
                    },
            decreases self.nodi@.len() - i,
        {
            let azioni = crate::node::copia_azioni(&self.nodi[i].azioni);
            let stato = self.nodi[i].stato;
            r.push(Node { stato, azioni, genitore: None, costo_cammino: 0, profondita: 0 });
            i = i + 1;
        }
        r
    }

    /// Pads the node table with placeholder nodes up to `fino` entries.
    fn estendi_nodi(&mut self, fino: usize)
        requires
            tabella_ok(old(self).nodi@),
            fino as int <= u32::MAX as int + 1,
        ensures
            final(self).gtype == old(self).gtype,
            final(self).edge_count == old(self).edge_count,
            final(self).az() == estendi(old(self).az(), fino as int),
            final(self).nodi@.len() >= fino,
            final(self).nodi@.len() >= old(self).nodi@.len(),
            tabella_ok(final(self).nodi@),
    {
        while self.nodi.len() < fino
            invariant
                tabella_ok(self.nodi@),
                self.gtype == old(self).gtype,
                self.edge_count == old(self).edge_count,
                old(self).nodi@.len() <= self.nodi@.len(),
                self.nodi@.len() <= fino || self.nodi@.len() == old(self).nodi@.len(),
                fino as int <= u32::MAX as int + 1,
                self.az() == estendi(old(self).az(), self.nodi@.len() as int),
            decreases fino - self.nodi@.len(),
        {
            let ghost prima = self.nodi@;
            let ghost az_prima = self.az();
            let l = self.nodi.len();
            let nuovo = Node {
                stato: l as u32,
                azioni: Vec::new(),
                genitore: None,
                costo_cammino: 0,
                profondita: 0,
            };
            self.nodi.push(nuovo);
            proof {
                let vecchio = old(self).az();
                let dopo = estendi(vecchio, self.nodi@.len() as int);
                assert(az_prima.len() == prima.len());
                assert(vecchio.len() <= prima.len());
                assert(dopo.len() == self.nodi@.len());
                assert forall|k: int| 0 <= k < self.nodi@.len() implies self.az()[k] == dopo[k] by {
                    assert(self.az()[k] == self.nodi@[k].azioni@);
                    if k < prima.len() {
                        assert(self.nodi@[k] == prima[k]);
                        assert(az_prima[k] == prima[k].azioni@);
                        assert(az_prima[k] == estendi(vecchio, prima.len() as int)[k]);
                    } else {
                        assert(self.nodi@[k] == nuovo);
                        assert(nuovo.azioni@ =~= Seq::<Action>::empty());
                        assert(dopo[k] == Seq::<Action>::empty());
                    }
                }
                assert(self.az() =~= estendi(old(self).az(), self.nodi@.len() as int));
            }
        }
        proof {
            if old(self).nodi@.len() >= fino {
                assert(self.nodi@.len() == old(self).nodi@.len());
                assert(estendi(old(self).az(), self.nodi@.len() as int) == old(self).az());
                assert(estendi(old(self).az(), fino as int) == old(self).az());
            } else {
                assert(self.nodi@.len() == fino);
            }
        }
    }

    /// Whether the exact action `da -> a` with cost `c` is in the table.
    fn esiste_az(&self, da: usize, a: u32, c: i32) -> (r: bool)
        ensures
            r == esiste_azione(self.az(), da as int, a, c),
    {
        if da >= self.nodi.len() {
            return false;
        }
        let riga = &self.nodi[da].azioni;
        let mut j: usize = 0;
        while j < riga.len()
            invariant
                da < self.nodi@.len(),
                riga@ == self.nodi@[da as int].azioni@,
                0 <= j <= riga@.len(),
                forall|x: int|
                    0 <= x < j ==> (#[trigger] riga@[x]) != (Action { risultato: a, costo: c }),
            decreases riga@.len() - j,
        {
            let act = riga[j];
            if act.risultato == a && act.costo == c {
                proof {
                    assert(self.az()[da as int][j as int] == (Action { risultato: a, costo: c }));
                }
                return true;
            }
            j = j + 1;
        }
        proof {
            if esiste_azione(self.az(), da as int, a, c) {
                let x = choose|x: int|
                    0 <= x < self.az()[da as int].len() && (#[trigger] self.az()[da as int][x])
                        == (Action { risultato: a, costo: c });
                assert(riga@[x] == (Action { risultato: a, costo: c }));
            }
        }
        false
    }

    /// Appends the action `da -> a` with cost `c` to state `da`'s list.
    fn aggiungi_az(&mut self, da: usize, a: u32, c: i32)
        requires
            tabella_ok(old(self).nodi@),
            da < old(self).nodi@.len(),
            (a as int) < old(self).nodi@.len(),
        ensures
            final(self).gtype == old(self).gtype,
            final(self).edge_count == old(self).edge_count,
            final(self).nodi@.len() == old(self).nodi@.len(),
            final(self).az() == aggiungi(old(self).az(), da as int, a, c),
            tabella_ok(final(self).nodi@),
    {
        let mut riga = crate::node::copia_azioni(&self.nodi[da].azioni);
        riga.push(Action { risultato: a, costo: c });
        let stato = self.nodi[da].stato;
        self.nodi[da] = Node { stato, azioni: riga, genitore: None, costo_cammino: 0, profondita: 0 };
        proof {
            assert(final(self).az() =~= aggiungi(old(self).az(), da as int, a, c));
        }
    }

    /// Loads dataset text, already decompressed, into the graph: the leading
    /// comment lines decide the graph type, and every following line that
    /// parses as a state pair (with an optional cost for labeled datasets)
    /// inserts its transitions; malformed lines are skipped silently.
    #[verifier::loop_isolation(false)]
    pub fn load_dataset(&mut self, data: &Vec<u8>)
        requires
            old(self).wf(),
        ensures
            final(self).wf(),
            ({
                let (tipo, azz, cnt) = spec_carica_su(
                    old(self).az(),
                    old(self).edge_count as int,
                    data@,
                );
                final(self).gtype == tipo && final(self).az() == azz
                    && final(self).edge_count as int == cnt
            }),
    {
        let linee = dividi_linee(data);
        let ghost lv = viste(linee@);
        let cancelletto = ago_cancelletto();
        let diretto = ago_directed();
        let non_diretto_ago = ago_undirected();
        let mut i: usize = 0;
        let mut tipo = GraphType::Labeled;
        let mut fissato = false;
        while i < linee.len() && contiene_sub(&linee[i], &cancelletto)
            invariant
                0 <= i <= lv.len(),
                inizio_dati(lv, 0) == inizio_dati(lv, i as int),
                fissato ==> tipo_grafo(lv, 0) == tipo,
                !fissato ==> tipo == GraphType::Labeled && tipo_grafo(lv, 0) == tipo_grafo(
                    lv,
                    i as int,
                ),
            decreases lv.len() - i,
        {
            if !fissato {
                if contiene_sub(&linee[i], &diretto) {
                    tipo = GraphType::Directed;
                    fissato = true;
                } else if contiene_sub(&linee[i], &non_diretto_ago) {
                    tipo = GraphType::Undirected;
                    fissato = true;
                }
            }
            i = i + 1;
        }
        proof {
            assert(tipo_grafo(lv, 0) == tipo);
            assert(inizio_dati(lv, 0) == i as int);
        }
        self.gtype = tipo;
        let ghost obiettivo = carica_da(
            (tipo, old(self).az(), old(self).edge_count as int),
            lv,
            i as int,
        );
        while i < linee.len()
            invariant
                tabella_ok(self.nodi@),
                self.gtype == tipo,
                i <= lv.len(),
                carica_da((self.gtype, self.az(), self.edge_count as int), lv, i as int)
                    == obiettivo,
            decreases lv.len() - i,
        {
            let ghost st0 = (self.gtype, self.az(), self.edge_count as int);
            let toks = tokenizza(&linee[i], true);
            proof {
                assert(lv[i as int] == linee@[i as int]@);
            }
            if toks.len() >= 2 {
                let oda = parse_u32(&toks[0]);
                let oa = parse_u32(&toks[1]);
                proof {
                    assert(viste(toks@)[0] == toks@[0]@);
                    assert(viste(toks@)[1] == toks@[1]@);
                }
                match (oda, oa) {
                    (Some(da), Some(a)) => {
                        let mut costo: i32 = 0;
                        if tipo == GraphType::Labeled && toks.len() >= 3 {
                            proof {
                                assert(viste(toks@)[2] == toks@[2]@);
                            }
                            match parse_i32(&toks[2]) {
                                Some(c) => {
                                    costo = c;
                                },
                                None => {},
                            }
                        }
                        let da_us = da as usize;
                        let a_us = a as usize;
                        if da_us < usize::MAX && a_us < usize::MAX {
                            let fe = self.esiste_az(da_us, a, costo);
                            let re = self.esiste_az(a_us, da, costo);
                            self.estendi_nodi(da_us + 1);
                            self.estendi_nodi(a_us + 1);
                            let non_diretto = tipo == GraphType::Undirected || tipo
                                == GraphType::Labeled;
                            if !fe {
                                self.aggiungi_az(da_us, a, costo);
                            }
                            if non_diretto && !re {
                                self.aggiungi_az(a_us, da, costo);
                            }
                            if !fe && (non_diretto || re) {
                                if self.edge_count < u32::MAX {
                                    self.edge_count = self.edge_count + 1;
                                }
                            }
                        }
                    },
                    _ => {},
                }
            }
            proof {
                assert(carica_linea(st0, lv[i as int]) == (
                    self.gtype,
                    self.az(),
                    self.edge_count as int,
                ));
            }
            i = i + 1;
        }
    }

    /// Loads a gzip-compressed dataset into a fresh graph; nothing is
    /// returned when the bytes are not a readable gzip stream.
    pub fn from_gz_dataset(data: &Vec<u8>) -> (r: Option<Graph>)
        ensures
            match r {
                Some(g) => gunzip_of(data@) is Some && g.wf() && {
                    let (tipo, azz, cnt) = spec_carica(gunzip_of(data@).unwrap());
                    g.gtype == tipo && g.az() == azz && g.edge_count as int == cnt
                },
                None => gunzip_of(data@) is None,
            },
    {
        match gunzip(data) {
            Some(testo) => {
                let mut g = Graph::new();
                proof {
                    assert(g.az() =~= Seq::<Seq<Action>>::empty());
                }
                g.load_dataset(&testo);
                Some(g)
            },
            None => None,
        }
    }
}

} // verus!
