//! Decks: the text that maps the groups of a mesh to materials, boundaries and
//! ports. One card per line; a line whose first word begins with `*` is a comment.
//!
//! ```text
//! mesh <path>                                      relative to the deck
//! mat <group> [eps <er>] [tand <d>] [mur <mr>] [sigma <s>]
//! pec <group> ...
//! abc <group> ...
//! metal <group> <sigma>
//! pml <group> <ax> <ay> <az>
//! port <n> <group> <jx> <jy> <jz> <z0>             n counts from 1
//! sweep lin <f0> <f1> <npoints>
//! output s|z|y|lq
//! field <path> <f>
//! ```

use crate::msh::copy_text;
use crate::page::{line_view, page_of, page_view, read_page, Token, Word};
use crate::scalar::{dot3, sc3, Number, Scalar, V3};
use crate::text::{equals, lower_case, lowered, spelled};
use vstd::prelude::*;

verus! {

/// The material of a volume group.
pub struct Mat<T> {
    /// Relative permittivity.
    pub eps: T,
    /// Loss tangent.
    pub tand: T,
    /// Relative permeability.
    pub mur: T,
    /// Conductivity in S/m.
    pub sigma: T,
}

impl<T: Copy> Copy for Mat<T> {

}

impl<T: Copy> Clone for Mat<T> {
    fn clone(&self) -> (r: Self)
        ensures
            r == *self,
    {
        *self
    }
}

/// What to print.
#[derive(Clone, Copy, PartialEq, Eq, Structural, Debug)]
pub enum Output {
    /// Scattering parameters.
    S,
    /// Impedance matrix.
    Z,
    /// Admittance matrix.
    Y,
    /// Inductance and quality factor of each port.
    Lq,
}

/// A material card.
pub struct MatCard<T> {
    pub group: Vec<char>,
    pub mat: Mat<T>,
}

/// A conductor card.
pub struct MetalCard<T> {
    pub group: Vec<char>,
    pub sigma: T,
}

/// A card for a stretch of coordinates.
pub struct PmlCard<T> {
    pub group: Vec<char>,
    pub stretch: V3<T>,
}

/// A lumped port.
pub struct PortDef<T> {
    pub group: Vec<char>,
    /// Unit vector from one terminal to the other.
    pub dir: V3<T>,
    /// Reference impedance in ohms.
    pub z0: T,
}

/// A card for a snapshot of the field.
pub struct FieldCard<T> {
    pub path: Vec<char>,
    pub f: T,
}

/// A deck.
pub struct Deck<T> {
    pub mesh: Option<Vec<char>>,
    pub mats: Vec<MatCard<T>>,
    pub pec: Vec<Vec<char>>,
    pub abc: Vec<Vec<char>>,
    pub metals: Vec<MetalCard<T>>,
    pub pmls: Vec<PmlCard<T>>,
    pub ports: Vec<PortDef<T>>,
    pub f0: T,
    pub f1: T,
    pub nf: usize,
    pub output: Output,
    pub field: Option<FieldCard<T>>,
}

/// Why a deck is refused. Lines and words count from zero.
#[derive(Clone, Copy, PartialEq, Eq, Structural, Debug)]
pub enum DeckError {
    /// The line is no card.
    BadCard { line: usize },
    /// The word is no number.
    BadNumber { line: usize, word: usize },
    /// A port has not the next number.
    PortOrder,
    /// The direction of a port has no length.
    NoDirection,
    /// The reference impedance of a port is not positive.
    Impedance,
    /// A permittivity is not positive.
    Eps,
    /// A loss tangent is negative.
    Tand,
    /// A permeability is not positive.
    Mur,
    /// A frequency of the sweep is not positive.
    Frequency,
    /// The deck lacks a mesh, a port or a sweep.
    Incomplete,
}

impl DeckError {
    pub open spec fn wording(self) -> &'static str {
        match self {
            DeckError::BadCard { .. } => "bad card",
            DeckError::BadNumber { .. } => "bad number",
            DeckError::PortOrder => "ports must be numbered 1, 2, ... in order",
            DeckError::NoDirection => "port direction must be nonzero",
            DeckError::Impedance => "port impedance must be positive",
            DeckError::Eps => "eps must be positive",
            DeckError::Tand => "tand must not be negative",
            DeckError::Mur => "mur must be positive",
            DeckError::Frequency => "frequency must be positive",
            DeckError::Incomplete => "deck needs at least mesh, one port and a sweep",
        }
    }

    /// What to tell the user. The line or the word in question is not part of it.
    pub fn message(self) -> (r: &'static str)
        ensures
            r == self.wording(),
    {
        match self {
            DeckError::BadCard { .. } => "bad card",
            DeckError::BadNumber { .. } => "bad number",
            DeckError::PortOrder => "ports must be numbered 1, 2, ... in order",
            DeckError::NoDirection => "port direction must be nonzero",
            DeckError::Impedance => "port impedance must be positive",
            DeckError::Eps => "eps must be positive",
            DeckError::Tand => "tand must not be negative",
            DeckError::Mur => "mur must be positive",
            DeckError::Frequency => "frequency must be positive",
            DeckError::Incomplete => "deck needs at least mesh, one port and a sweep",
        }
    }
}

// ---------------------------------------------------------------- model

/// A port of a deck.
pub struct PortModel<T> {
    pub group: Seq<char>,
    pub dir: V3<T>,
    pub z0: T,
}

/// What has been read of a deck.
pub struct DeckModel<T> {
    pub mesh: Option<Seq<char>>,
    pub mats: Seq<(Seq<char>, Mat<T>)>,
    pub pec: Seq<Seq<char>>,
    pub abc: Seq<Seq<char>>,
    pub metals: Seq<(Seq<char>, T)>,
    pub pmls: Seq<(Seq<char>, V3<T>)>,
    pub ports: Seq<PortModel<T>>,
    pub f0: T,
    pub f1: T,
    pub nf: usize,
    pub output: Output,
    pub field: Option<(Seq<char>, T)>,
}

impl<T: Number> DeckModel<T> {
    /// A deck without cards.
    pub open spec fn empty() -> DeckModel<T> {
        DeckModel {
            mesh: None,
            mats: seq![],
            pec: seq![],
            abc: seq![],
            metals: seq![],
            pmls: seq![],
            ports: seq![],
            f0: T::zero(),
            f1: T::zero(),
            nf: 0,
            output: Output::S,
            field: None,
        }
    }
}

impl<T> Deck<T> {
    /// What the deck holds.
    pub open spec fn model(self) -> DeckModel<T> {
        DeckModel {
            mesh: match self.mesh {
                Some(path) => Some(path@),
                None => None,
            },
            mats: Seq::new(self.mats@.len(), |i: int| (self.mats@[i].group@, self.mats@[i].mat)),
            pec: spelled(self.pec@),
            abc: spelled(self.abc@),
            metals: Seq::new(
                self.metals@.len(),
                |i: int| (self.metals@[i].group@, self.metals@[i].sigma),
            ),
            pmls: Seq::new(
                self.pmls@.len(),
                |i: int| (self.pmls@[i].group@, self.pmls@[i].stretch),
            ),
            ports: Seq::new(
                self.ports@.len(),
                |i: int|
                    PortModel {
                        group: self.ports@[i].group@,
                        dir: self.ports@[i].dir,
                        z0: self.ports@[i].z0,
                    },
            ),
            f0: self.f0,
            f1: self.f1,
            nf: self.nf,
            output: self.output,
            field: match self.field {
                Some(card) => Some((card.path@, card.f)),
                None => None,
            },
        }
    }
}

/// The number that the word at `k` spells.
pub open spec fn number_at<T>(no: usize, line: Seq<Token<T>>, k: int) -> Result<T, DeckError> {
    match line[k].num {
        Some(v) => Ok(v),
        None => Err(DeckError::BadNumber { line: no, word: k as usize }),
    }
}

/// The vector that the three words from `k` on spell.
pub open spec fn vector_at<T>(no: usize, line: Seq<Token<T>>, k: int) -> Result<V3<T>, DeckError> {
    match (number_at(no, line, k), number_at(no, line, k + 1), number_at(no, line, k + 2)) {
        (Ok(x), Ok(y), Ok(z)) => Ok(V3 { x, y, z }),
        (Err(e), _, _) => Err(e),
        (_, Err(e), _) => Err(e),
        (_, _, Err(e)) => Err(e),
    }
}

/// Vacuum.
pub open spec fn vacuum<T: Number>() -> Mat<T> {
    Mat { eps: T::one(), tand: T::zero(), mur: T::one(), sigma: T::zero() }
}

/// `mat` with the property that the key names set to `v`.
pub open spec fn with_property<T>(mat: Mat<T>, key: Seq<char>, v: T) -> Option<Mat<T>> {
    if key == "eps"@ {
        Some(Mat { eps: v, ..mat })
    } else if key == "tand"@ {
        Some(Mat { tand: v, ..mat })
    } else if key == "mur"@ {
        Some(Mat { mur: v, ..mat })
    } else if key == "sigma"@ {
        Some(Mat { sigma: v, ..mat })
    } else {
        None
    }
}

/// The key names a property of a material.
pub open spec fn is_property(key: Seq<char>) -> bool {
    key == "eps"@ || key == "tand"@ || key == "mur"@ || key == "sigma"@
}

/// The properties on a card from the word at `k` on: pairs of a key and a number.
pub open spec fn properties<T>(no: usize, line: Seq<Token<T>>, k: int, mat: Mat<T>) -> Result<
    Mat<T>,
    DeckError,
>
    decreases line.len() - k,
{
    if k >= line.len() {
        Ok(mat)
    } else {
        let key = lowered(line[k].text);
        if !is_property(key) || k + 1 >= line.len() {
            Err(DeckError::BadCard { line: no })
        } else {
            match number_at(no, line, k + 1) {
                Err(e) => Err(e),
                Ok(v) => properties(no, line, k + 2, with_property(mat, key, v).unwrap()),
            }
        }
    }
}

/// A material can exist.
pub open spec fn checked_mat<T: Number>(mat: Mat<T>) -> Result<Mat<T>, DeckError> {
    if !T::zero().less(mat.eps) {
        Err(DeckError::Eps)
    } else if mat.tand.less(T::zero()) {
        Err(DeckError::Tand)
    } else if !T::zero().less(mat.mur) {
        Err(DeckError::Mur)
    } else {
        Ok(mat)
    }
}

/// The number equals zero.
pub open spec fn nought<T: Number>(v: T) -> bool {
    v.at_most(T::zero()) && T::zero().at_most(v)
}

/// The length of a vector.
pub open spec fn length<T: Number>(v: V3<T>) -> T {
    v.dot(v).root()
}

/// A port card.
pub open spec fn port_card<T: Number>(d: DeckModel<T>, no: usize, line: Seq<Token<T>>) -> Result<
    DeckModel<T>,
    DeckError,
> {
    match number_at(no, line, 1) {
        Err(e) => Err(e),
        Ok(n) => if n.to_count() != d.ports.len() + 1 {
            Err(DeckError::PortOrder)
        } else {
            match vector_at(no, line, 3) {
                Err(e) => Err(e),
                Ok(dir) => if nought(length(dir)) {
                    Err(DeckError::NoDirection)
                } else {
                    match number_at(no, line, 6) {
                        Err(e) => Err(e),
                        Ok(z0) => if !T::zero().less(z0) {
                            Err(DeckError::Impedance)
                        } else {
                            let port = PortModel {
                                group: line[2].text,
                                dir: dir.times(T::one().over(length(dir))),
                                z0,
                            };
                            Ok(DeckModel { ports: d.ports.push(port), ..d })
                        },
                    }
                },
            }
        },
    }
}

/// A sweep card. A sweep of one point has the first frequency only.
pub open spec fn sweep_card<T: Number>(d: DeckModel<T>, no: usize, line: Seq<Token<T>>) -> Result<
    DeckModel<T>,
    DeckError,
> {
    match (number_at(no, line, 2), number_at(no, line, 3), number_at(no, line, 4)) {
        (Ok(f0), Ok(f1), Ok(n)) => if !T::zero().less(f0) || (n.to_count() > 1
            && !T::zero().less(f1)) {
            Err(DeckError::Frequency)
        } else {
            Ok(DeckModel { f0, f1, nf: n.to_count(), ..d })
        },
        (Err(e), _, _) => Err(e),
        (_, Err(e), _) => Err(e),
        (_, _, Err(e)) => Err(e),
    }
}

/// The output that a word names.
pub open spec fn output_of(word: Seq<char>) -> Option<Output> {
    if word == "s"@ {
        Some(Output::S)
    } else if word == "z"@ {
        Some(Output::Z)
    } else if word == "y"@ {
        Some(Output::Y)
    } else if word == "lq"@ {
        Some(Output::Lq)
    } else {
        None
    }
}

/// The words of a line from the second on.
pub open spec fn arguments<T>(line: Seq<Token<T>>) -> Seq<Seq<char>> {
    Seq::new((line.len() - 1) as nat, |i: int| line[1 + i].text)
}

/// One card.
pub open spec fn card<T: Number>(d: DeckModel<T>, no: usize, line: Seq<Token<T>>) -> Result<
    DeckModel<T>,
    DeckError,
> {
    let key = lowered(line[0].text);
    if key == "mesh"@ && line.len() == 2 {
        Ok(DeckModel { mesh: Some(line[1].text), ..d })
    } else if key == "mat"@ && line.len() >= 4 {
        match properties(no, line, 2, vacuum()) {
            Err(e) => Err(e),
            Ok(mat) => match checked_mat(mat) {
                Err(e) => Err(e),
                Ok(mat) => Ok(DeckModel { mats: d.mats.push((line[1].text, mat)), ..d }),
            },
        }
    } else if key == "pec"@ && line.len() >= 2 {
        Ok(DeckModel { pec: d.pec + arguments(line), ..d })
    } else if key == "abc"@ && line.len() >= 2 {
        Ok(DeckModel { abc: d.abc + arguments(line), ..d })
    } else if key == "metal"@ && line.len() == 3 {
        match number_at(no, line, 2) {
            Err(e) => Err(e),
            Ok(sigma) => Ok(DeckModel { metals: d.metals.push((line[1].text, sigma)), ..d }),
        }
    } else if key == "pml"@ && line.len() == 5 {
        match vector_at(no, line, 2) {
            Err(e) => Err(e),
            Ok(stretch) => Ok(DeckModel { pmls: d.pmls.push((line[1].text, stretch)), ..d }),
        }
    } else if key == "port"@ && line.len() == 7 {
        port_card(d, no, line)
    } else if key == "sweep"@ && line.len() == 5 && line[1].text == "lin"@ {
        sweep_card(d, no, line)
    } else if key == "output"@ && line.len() == 2 && output_of(line[1].text) is Some {
        Ok(DeckModel { output: output_of(line[1].text).unwrap(), ..d })
    } else if key == "field"@ && line.len() == 3 {
        match number_at(no, line, 2) {
            Err(e) => Err(e),
            Ok(f) => Ok(DeckModel { field: Some((line[1].text, f)), ..d }),
        }
    } else {
        Err(DeckError::BadCard { line: no })
    }
}

/// An empty line, or a comment.
pub open spec fn is_blank<T>(line: Seq<Token<T>>) -> bool {
    line.len() == 0 || (line[0].text.len() > 0 && line[0].text[0] == '*')
}

/// The first `n` lines of a deck.
pub open spec fn cards<T: Number>(page: Seq<Seq<Token<T>>>, n: nat) -> Result<
    DeckModel<T>,
    DeckError,
>
    decreases n,
{
    if n == 0 {
        Ok(DeckModel::empty())
    } else {
        match cards(page, (n - 1) as nat) {
            Err(e) => Err(e),
            Ok(d) => if is_blank(page[n - 1]) {
                Ok(d)
            } else {
                card(d, (n - 1) as usize, page[n - 1])
            },
        }
    }
}

/// What a deck holds.
pub open spec fn deck_model<T: Number>(page: Seq<Seq<Token<T>>>) -> Result<
    DeckModel<T>,
    DeckError,
> {
    match cards(page, page.len()) {
        Err(e) => Err(e),
        Ok(d) => if d.mesh is None || d.ports.len() == 0 || d.nf == 0 {
            Err(DeckError::Incomplete)
        } else {
            Ok(d)
        },
    }
}

/// The values on the cards of a deck are in range: materials can exist, reference
/// impedances and the frequencies of the sweep are positive.
pub open spec fn in_range<T: Number>(d: DeckModel<T>) -> bool {
    &&& forall|i: int|
        0 <= i < d.mats.len() ==> T::zero().less((#[trigger] d.mats[i]).1.eps) && T::zero().less(
            d.mats[i].1.mur,
        ) && !d.mats[i].1.tand.less(T::zero())
    &&& forall|i: int| 0 <= i < d.ports.len() ==> T::zero().less((#[trigger] d.ports[i]).z0)
    &&& d.nf > 0 ==> T::zero().less(d.f0)
    &&& d.nf > 1 ==> T::zero().less(d.f1)
}

proof fn lemma_cards_in_range<T: Number>(page: Seq<Seq<Token<T>>>, n: nat)
    ensures
        cards(page, n) matches Ok(d) ==> in_range(d),
    decreases n,
{
    if n > 0 {
        lemma_cards_in_range(page, (n - 1) as nat);
    }
}

/// A deck that is accepted names a mesh, has a port and a sweep, and all its values
/// are in range.
pub proof fn lemma_accepted<T: Number>(page: Seq<Seq<Token<T>>>)
    ensures
        deck_model(page) matches Ok(d) ==> in_range(d) && d.mesh is Some && d.ports.len() > 0
            && d.nf > 0,
{
    lemma_cards_in_range(page, page.len());
}

// ---------------------------------------------------------------- reading

fn num<T: Scalar>(no: usize, line: &Vec<Word<T>>, k: usize) -> (r: Result<T, DeckError>)
    requires
        k < line@.len(),
    ensures
        r == number_at(no, line_view(line@), k as int),
{
    match line[k].num {
        Some(v) => Ok(v),
        None => Err(DeckError::BadNumber { line: no, word: k }),
    }
}

fn num3<T: Scalar>(no: usize, line: &Vec<Word<T>>, k: usize) -> (r: Result<V3<T>, DeckError>)
    requires
        k + 2 < line@.len(),
    ensures
        r == vector_at(no, line_view(line@), k as int),
{
    let _n: usize = line.len();
    let x = match num(no, line, k) {
        Err(e) => {
            return Err(e);
        },
        Ok(v) => v,
    };
    let y = match num(no, line, k + 1) {
        Err(e) => {
            return Err(e);
        },
        Ok(v) => v,
    };
    let z = match num(no, line, k + 2) {
        Err(e) => {
            return Err(e);
        },
        Ok(v) => v,
    };
    Ok(V3 { x, y, z })
}

fn read_mat<T: Scalar>(no: usize, line: &Vec<Word<T>>) -> (r: Result<Mat<T>, DeckError>)
    ensures
        r == (match properties(no, line_view(line@), 2, vacuum()) {
            Err(e) => Err(e),
            Ok(mat) => checked_mat(mat),
        }),
{
    let ghost tokens = line_view(line@);
    let mut mat: Mat<T> = Mat { eps: T::unit(), tand: T::nil(), mur: T::unit(), sigma: T::nil() };
    let mut k: usize = 2;
    while k < line.len()
        invariant
            k >= 2,
            tokens == line_view(line@),
            properties(no, tokens, k as int, mat) == properties(no, tokens, 2, vacuum()),
        decreases line@.len() - k,
    {
        let key = lower_case(&line[k].text);
        assert(key@ == lowered(tokens[k as int].text));
        let eps: bool = equals(&key, "eps");
        let tand: bool = equals(&key, "tand");
        let mur: bool = equals(&key, "mur");
        let sigma: bool = equals(&key, "sigma");
        if !(eps || tand || mur || sigma) || line.len() - k == 1 {
            return Err(DeckError::BadCard { line: no });
        }
        let v = match num(no, line, k + 1) {
            Err(e) => {
                return Err(e);
            },
            Ok(v) => v,
        };
        if eps {
            mat = Mat { eps: v, ..mat };
        } else if tand {
            mat = Mat { tand: v, ..mat };
        } else if mur {
            mat = Mat { mur: v, ..mat };
        } else {
            mat = Mat { sigma: v, ..mat };
        }
        k += 2;
    }
    if !T::nil().lt(mat.eps) {
        Err(DeckError::Eps)
    } else if mat.tand.lt(T::nil()) {
        Err(DeckError::Tand)
    } else if !T::nil().lt(mat.mur) {
        Err(DeckError::Mur)
    } else {
        Ok(mat)
    }
}

/// Appends copies of the words of a line from the second on.
fn append_arguments<T>(line: &Vec<Word<T>>, list: &mut Vec<Vec<char>>)
    requires
        line@.len() >= 1,
    ensures
        spelled(final(list)@) == spelled(old(list)@) + arguments(line_view(line@)),
{
    let ghost args = arguments(line_view(line@));
    let ghost start = spelled(list@);
    let mut i: usize = 1;
    assert(spelled(list@) =~= start + args.take(0));
    while i < line.len()
        invariant
            1 <= i <= line@.len(),
            args == arguments(line_view(line@)),
            spelled(list@) == start + args.take(i - 1),
        decreases line@.len() - i,
    {
        let ghost before = list@;
        list.push(copy_text(&line[i].text));
        assert(args[i - 1] == line@[i as int].text@);
        assert(args.take(i as int) =~= args.take(i - 1).push(args[i - 1]));
        assert(spelled(list@) =~= spelled(before).push(args[i - 1]));
        assert(spelled(list@) =~= start + args.take(i as int));
        i += 1;
    }
    assert(args.take(i - 1) =~= args);
}

impl<T: Scalar> Deck<T> {
    fn new() -> (r: Deck<T>)
        ensures
            r.model() == DeckModel::<T>::empty(),
    {
        let r = Deck {
            mesh: None,
            mats: Vec::new(),
            pec: Vec::new(),
            abc: Vec::new(),
            metals: Vec::new(),
            pmls: Vec::new(),
            ports: Vec::new(),
            f0: T::nil(),
            f1: T::nil(),
            nf: 0,
            output: Output::S,
            field: None,
        };
        proof {
            let e = DeckModel::<T>::empty();
            assert(r.model().mats =~= e.mats);
            assert(r.model().pec =~= e.pec);
            assert(r.model().abc =~= e.abc);
            assert(r.model().metals =~= e.metals);
            assert(r.model().pmls =~= e.pmls);
            assert(r.model().ports =~= e.ports);
        }
        r
    }

    fn add_port(&mut self, no: usize, line: &Vec<Word<T>>) -> (r: Result<(), DeckError>)
        requires
            line@.len() == 7,
        ensures
            match port_card(old(self).model(), no, line_view(line@)) {
                Ok(d) => r is Ok && final(self).model() == d,
                Err(e) => r == Err::<(), DeckError>(e),
            },
    {
        let ghost before = self.model();
        let n = match num(no, line, 1) {
            Err(e) => {
                return Err(e);
            },
            Ok(v) => v.as_usize(),
        };
        if n == 0 || n - 1 != self.ports.len() {
            return Err(DeckError::PortOrder);
        }
        let dir = match num3(no, line, 3) {
            Err(e) => {
                return Err(e);
            },
            Ok(v) => v,
        };
        let len = dot3(dir, dir).sqrt();
        if len.le(T::nil()) && T::nil().le(len) {
            return Err(DeckError::NoDirection);
        }
        let z0 = match num(no, line, 6) {
            Err(e) => {
                return Err(e);
            },
            Ok(v) => v,
        };
        if !T::nil().lt(z0) {
            return Err(DeckError::Impedance);
        }
        let port = PortDef {
            group: copy_text(&line[2].text),
            dir: sc3(dir, T::unit().div(len)),
            z0,
        };
        let ghost model = PortModel { group: port.group@, dir: port.dir, z0: port.z0 };
        self.ports.push(port);
        assert(self.model().ports =~= before.ports.push(model));
        assert(self.model().mats =~= before.mats);
        assert(self.model().metals =~= before.metals);
        assert(self.model().pmls =~= before.pmls);
        Ok(())
    }

    fn set_sweep(&mut self, no: usize, line: &Vec<Word<T>>) -> (r: Result<(), DeckError>)
        requires
            line@.len() == 5,
        ensures
            match sweep_card(old(self).model(), no, line_view(line@)) {
                Ok(d) => r is Ok && final(self).model() == d,
                Err(e) => r == Err::<(), DeckError>(e),
            },
    {
        let ghost before = self.model();
        let f0 = match num(no, line, 2) {
            Err(e) => {
                return Err(e);
            },
            Ok(v) => v,
        };
        let f1 = match num(no, line, 3) {
            Err(e) => {
                return Err(e);
            },
            Ok(v) => v,
        };
        let nf = match num(no, line, 4) {
            Err(e) => {
                return Err(e);
            },
            Ok(v) => v.as_usize(),
        };
        if !T::nil().lt(f0) || (nf > 1 && !T::nil().lt(f1)) {
            return Err(DeckError::Frequency);
        }
        self.f0 = f0;
        self.f1 = f1;
        self.nf = nf;
        assert(self.model().mats =~= before.mats);
        assert(self.model().metals =~= before.metals);
        assert(self.model().pmls =~= before.pmls);
        assert(self.model().ports =~= before.ports);
        Ok(())
    }

    /// Takes in one card.
    fn add_card(&mut self, no: usize, line: &Vec<Word<T>>) -> (r: Result<(), DeckError>)
        requires
            line@.len() > 0,
        ensures
            match card(old(self).model(), no, line_view(line@)) {
                Ok(d) => r is Ok && final(self).model() == d,
                Err(e) => r == Err::<(), DeckError>(e),
            },
    {
        let ghost before = self.model();
        let key = lower_case(&line[0].text);
        let n: usize = line.len();
        if equals(&key, "mesh") && n == 2 {
            self.mesh = Some(copy_text(&line[1].text));
        } else if equals(&key, "mat") && n >= 4 {
            let mat = match read_mat(no, line) {
                Err(e) => {
                    return Err(e);
                },
                Ok(mat) => mat,
            };
            let group = copy_text(&line[1].text);
            let ghost text = group@;
            self.mats.push(MatCard { group, mat });
            assert(self.model().mats =~= before.mats.push((text, mat)));
        } else if equals(&key, "pec") && n >= 2 {
            append_arguments(line, &mut self.pec);
        } else if equals(&key, "abc") && n >= 2 {
            append_arguments(line, &mut self.abc);
        } else if equals(&key, "metal") && n == 3 {
            let sigma = match num(no, line, 2) {
                Err(e) => {
                    return Err(e);
                },
                Ok(v) => v,
            };
            let group = copy_text(&line[1].text);
            let ghost text = group@;
            self.metals.push(MetalCard { group, sigma });
            assert(self.model().metals =~= before.metals.push((text, sigma)));
        } else if equals(&key, "pml") && n == 5 {
            let stretch = match num3(no, line, 2) {
                Err(e) => {
                    return Err(e);
                },
                Ok(v) => v,
            };
            let group = copy_text(&line[1].text);
            let ghost text = group@;
            self.pmls.push(PmlCard { group, stretch });
            assert(self.model().pmls =~= before.pmls.push((text, stretch)));
        } else if equals(&key, "port") && n == 7 {
            return self.add_port(no, line);
        } else if equals(&key, "sweep") && n == 5 && equals(&line[1].text, "lin") {
            return self.set_sweep(no, line);
        } else if equals(&key, "output") && n == 2 && output_named(&line[1].text).is_some() {
            match output_named(&line[1].text) {
                Some(output) => {
                    self.output = output;
                },
                None => {},
            }
        } else if equals(&key, "field") && n == 3 {
            let f = match num(no, line, 2) {
                Err(e) => {
                    return Err(e);
                },
                Ok(v) => v,
            };
            self.field = Some(FieldCard { path: copy_text(&line[1].text), f });
        } else {
            return Err(DeckError::BadCard { line: no });
        }
        proof {
            let now = self.model();
            if now.mats.len() == before.mats.len() {
                assert(now.mats =~= before.mats);
            }
            if now.metals.len() == before.metals.len() {
                assert(now.metals =~= before.metals);
            }
            if now.pmls.len() == before.pmls.len() {
                assert(now.pmls =~= before.pmls);
            }
            assert(now.ports =~= before.ports);
        }
        Ok(())
    }
}

fn output_named(word: &Vec<char>) -> (r: Option<Output>)
    ensures
        r == output_of(word@),
{
    if equals(word, "s") {
        Some(Output::S)
    } else if equals(word, "z") {
        Some(Output::Z)
    } else if equals(word, "y") {
        Some(Output::Y)
    } else if equals(word, "lq") {
        Some(Output::Lq)
    } else {
        None
    }
}

/// Reads a deck.
pub fn load_deck<T: Scalar>(page: &Vec<Vec<Word<T>>>) -> (r: Result<Deck<T>, DeckError>)
    ensures
        match deck_model(page_view(page@)) {
            Ok(d) => r matches Ok(deck) && deck.model() == d,
            Err(e) => r matches Err(f) && e == f,
        },
{
    let ghost all = page_view(page@);
    let mut deck = Deck::<T>::new();
    let mut i: usize = 0;
    while i < page.len()
        invariant
            i <= page@.len(),
            all == page_view(page@),
            cards(all, i as nat) == Ok::<DeckModel<T>, DeckError>(deck.model()),
        decreases page@.len() - i,
    {
        let line: &Vec<Word<T>> = &page[i];
        assert(all[i as int] == line_view(line@));
        if line.len() > 0 && !(line[0].text.len() > 0 && line[0].text[0] == '*') {
            match deck.add_card(i, line) {
                Err(e) => {
                    proof {
                        lemma_cards_fail(all, i as nat + 1, all.len());
                    }
                    return Err(e);
                },
                Ok(_) => {},
            }
        }
        i += 1;
    }
    if deck.mesh.is_none() || deck.ports.len() == 0 || deck.nf == 0 {
        return Err(DeckError::Incomplete);
    }
    Ok(deck)
}

/// The first error of a deck is the one that is reported.
proof fn lemma_cards_fail<T: Number>(page: Seq<Seq<Token<T>>>, k: nat, n: nat)
    requires
        k <= n,
        cards(page, k) is Err,
    ensures
        cards(page, n) == cards(page, k),
    decreases n,
{
    if k < n {
        lemma_cards_fail(page, k, (n - 1) as nat);
    }
}

/// `r` is what a page of the text holds, with numbers that `read` gives.
pub open spec fn deck_read<T: Number, F: Fn(&Vec<char>) -> Option<T>>(
    text: Seq<char>,
    read: F,
    r: Result<Deck<T>, DeckError>,
) -> bool {
    exists|page: Seq<Vec<Word<T>>>| #[trigger]
        page_of(text, read, page) && (match deck_model(page_view(page)) {
            Ok(d) => r matches Ok(deck) && deck.model() == d,
            Err(e) => r matches Err(f) && e == f,
        })
}

/// Reads the deck in a text; `read` gives the number that a word spells.
pub fn parse_deck<T: Scalar, F: Fn(&Vec<char>) -> Option<T>>(text: &str, read: F) -> (r: Result<
    Deck<T>,
    DeckError,
>)
    requires
        forall|w: &Vec<char>| #[trigger] call_requires(read, (w,)),
    ensures
        deck_read(text@, read, r),
{
    let page = read_page(text, read);
    load_deck(&page)
}

} // verus!
