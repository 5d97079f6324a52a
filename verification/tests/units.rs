//! The parts of the solver, one by one.

use nanofem::deck::{parse_deck, Deck};
use nanofem::edges::{collect_faces, constrain, number_edges, number_unknowns, tet_behind, tet_corner, tet_pair, tri_corner, tri_pair};
use nanofem::element::{abs, mass_of_tri, moment_of_tri, part_of_tet, shape_tet, shape_tri, Entry, TetShape};
use nanofem::fixed::Fixed;
use nanofem::groups::{assign, find_last, stretch, CardKind, Medium, ModelError, Role};
use nanofem::msh::{parse_msh, sort_few, Mesh, Tet, Tri};
use nanofem::page::read_page;
use nanofem::pairs::PairTable;
use nanofem::profile::lay_out;
use nanofem::rcm::{rcm, sort_by_degree};
use nanofem::refine::{balance, measure, prepare, residual_of, solve_refined, spread_of};
use nanofem::scalar::{cross3, cx, dot3, origin3, sc3, sub3, Algebra, Constants, Cx, Number, Scalar, V3};
use nanofem::skyline::{factor, solve};
use nanofem::sweep::{simulate, workers, worst, Point, Row};
use nanofem::system::build;
use nanofem::text::{chars_of, equals, lines, lower_case, parse_i64, parse_usize, same, space, spell, words};

const ETA0: f64 = 376.73031346177066;
const C0: f64 = 299792458.0;
const PI: f64 = std::f64::consts::PI;

#[derive(Clone, Copy, Debug, PartialEq)]
struct F(f64);

impl Algebra for F {
    fn zero() -> F { F(0.0) }
    fn one() -> F { F(1.0) }
    fn spec_add(self, o: F) -> F { F(self.0 + o.0) }
    fn spec_sub(self, o: F) -> F { F(self.0 - o.0) }
    fn spec_mul(self, o: F) -> F { F(self.0 * o.0) }
    fn spec_neg(self) -> F { F(-self.0) }
    fn over(self, o: F) -> F { F(self.0 / o.0) }
}

impl Number for F {
    fn less(self, o: F) -> bool { self.0 < o.0 }
    fn at_most(self, o: F) -> bool { self.0 <= o.0 }
    fn root(self) -> F { F(self.0.sqrt()) }
    fn hypotenuse(self, o: F) -> F { F(self.0.hypot(o.0)) }
    fn number(n: usize) -> F { F(n as f64) }
    fn to_count(self) -> usize { self.0 as usize }
    fn to_id(self) -> i64 { self.0 as i64 }
    fn half_angle(re: F, im: F) -> (F, F) {
        let t = im.0.atan2(re.0) / 2.0;
        (F(t.cos()), F(t.sin()))
    }
    fn constants() -> Constants<F> {
        Constants {
            c0: F(C0),
            eta0: F(ETA0),
            two_pi: F(2.0 * PI),
            largest: F(f64::MAX),
            lowest: F(f64::MIN),
            tiny: F(1e-300),
            nan: F(f64::NAN),
        }
    }
}

impl Scalar for F {
    fn nil() -> F { F(0.0) }
    fn unit() -> F { F(1.0) }
    fn add(self, o: F) -> F { F(self.0 + o.0) }
    fn sub(self, o: F) -> F { F(self.0 - o.0) }
    fn mul(self, o: F) -> F { F(self.0 * o.0) }
    fn neg(self) -> F { F(-self.0) }
    fn div(self, o: F) -> F { F(self.0 / o.0) }
    fn lt(self, o: F) -> bool { self.0 < o.0 }
    fn le(self, o: F) -> bool { self.0 <= o.0 }
    fn sqrt(self) -> F { F(self.0.sqrt()) }
    fn hypot(self, o: F) -> F { F(self.0.hypot(o.0)) }
    fn half_arg(re: F, im: F) -> (F, F) { F::half_angle(re, im) }
    fn of(n: usize) -> F { F(n as f64) }
    fn as_usize(self) -> usize { self.0 as usize }
    fn as_i64(self) -> i64 { self.0 as i64 }
    fn known() -> Constants<F> { F::constants() }
}

fn read(word: &Vec<char>) -> Option<F> {
    let s: String = word.iter().collect();
    s.parse().ok().map(F)
}

fn v3(x: f64, y: f64, z: f64) -> V3<F> {
    V3 { x: F(x), y: F(y), z: F(z) }
}

fn near(a: f64, b: f64) -> bool {
    (a - b).abs() < 1e-12 * (1.0 + b.abs())
}

fn text(s: &str) -> Vec<char> {
    s.chars().collect()
}

// ---------------------------------------------------------------- numbers

#[test]
fn complex_arithmetic() {
    let (a, b) = (cx(F(1.0), F(2.0)), cx(F(3.0), F(-4.0)));
    let show = |z: Cx<F>| (z.re.0, z.im.0);
    assert_eq!(show(a.add(b)), (4.0, -2.0));
    assert_eq!(show(a.sub(b)), (-2.0, 6.0));
    assert_eq!(show(a.mul(b)), (11.0, 2.0));
    assert_eq!(show(a.div(b)), (-5.0 / 25.0, 10.0 / 25.0));
    assert_eq!(b.mag(), F(5.0));
    assert_eq!(show(a.rs(F(2.0))), (2.0, 4.0));
    assert_eq!(show(a.js(F(2.0))), (-4.0, 2.0));
    let r = cx(F(-4.0), F(0.0)).sqrt();
    assert!(r.re.0.abs() < 1e-15 && near(r.im.0, 2.0));
    let r = cx(F(3.0), F(-4.0)).sqrt();
    assert!(near(r.re.0, 2.0) && near(r.im.0, -1.0));
    assert_eq!(show(Cx::nil()), (0.0, 0.0));
}

#[test]
fn roots_square_to_their_argument() {
    for (a, b) in [(3.0, 4.0), (3.0, -4.0), (-3.0, 4.0), (-3.0, -4.0), (-9.0, 0.0), (0.0, 2.0), (0.0, -2.0), (0.0, 0.0)] {
        let w = cx(F(a), F(b)).sqrt();
        let z = w.mul(w);
        assert!(near(z.re.0, a) && near(z.im.0, b), "root of {} {}", a, b);
        assert!(w.re.0 >= 0.0);
        assert!(if b < 0.0 { w.im.0 < 0.0 } else if b > 0.0 { w.im.0 > 0.0 } else { w.im.0 >= 0.0 });
    }
}

#[test]
fn vectors() {
    let (a, b) = (v3(1.0, 2.0, 3.0), v3(4.0, 5.0, 7.0));
    let show = |v: V3<F>| (v.x.0, v.y.0, v.z.0);
    assert_eq!(show(sub3(b, a)), (3.0, 3.0, 4.0));
    assert_eq!(dot3(a, b), F(35.0));
    assert_eq!(show(cross3(a, b)), (-1.0, 5.0, -3.0));
    assert_eq!(show(sc3(a, F(2.0))), (2.0, 4.0, 6.0));
    assert_eq!(show(origin3()), (0.0, 0.0, 0.0));
    assert_eq!((abs(F(-2.0)), abs(F(2.0))), (F(2.0), F(2.0)));
}

fn fx(v: f64) -> Fixed {
    Fixed { bits: (v * 4294967296.0) as i64 }
}

#[test]
fn fixed_point_numbers() {
    assert_eq!(Fixed::of(3), fx(3.0));
    assert_eq!(fx(1.5).add(fx(2.25)), fx(3.75));
    assert_eq!(fx(1.5).sub(fx(2.25)), fx(-0.75));
    assert_eq!(fx(-1.5).mul(fx(2.5)), fx(-3.75));
    assert_eq!(fx(7.0).div(fx(-2.0)), fx(-3.5));
    assert_eq!(fx(7.0).div(fx(0.0)), fx(0.0));
    // results are rounded down
    assert_eq!(fx(1.0).div(fx(3.0)), Fixed { bits: 1431655765 });
    assert_eq!(fx(-1.0).div(fx(3.0)), Fixed { bits: -1431655766 });
    // and clamped
    let top = Fixed { bits: i64::MAX };
    let low = Fixed { bits: i64::MIN };
    assert_eq!(top.add(fx(1.0)), top);
    assert_eq!(low.sub(fx(1.0)), low);
    assert_eq!(low.neg(), top);
    assert_eq!(low.mul(low), top);
    assert_eq!(low.hypot(low), top);
    assert_eq!(fx(2.25).sqrt(), fx(1.5));
    assert_eq!(fx(2.0).sqrt(), Fixed { bits: 6074000999 });
    assert_eq!(fx(-1.0).sqrt(), fx(0.0));
    assert_eq!(fx(3.0).hypot(fx(-4.0)), fx(5.0));
    assert_eq!(Fixed::half_arg(fx(-4.0), fx(0.0)), (fx(0.0), fx(1.0)));
    assert_eq!(Fixed::half_arg(fx(0.0), fx(0.0)), (fx(1.0), fx(0.0)));
    let (c, s) = Fixed::half_arg(fx(3.0), fx(-4.0));
    assert_eq!((c, s), (fx(0.8).sqrt(), fx(0.2).sqrt().neg()));
    assert!(fx(1.0).lt(fx(2.0)) && !fx(2.0).lt(fx(2.0)) && fx(2.0).le(fx(2.0)));
    assert_eq!((fx(2.9).as_usize(), fx(-2.9).as_usize()), (2, 0));
    assert_eq!((fx(2.9).as_i64(), fx(-2.9).as_i64()), (2, -2));
    assert_eq!(Fixed::known().c0, Fixed::of(299792458));
    assert_eq!(Fixed::known().eta0.as_i64(), 376);
    assert_eq!(Fixed::known().two_pi.as_i64(), 6);
    assert_eq!((Fixed::nil(), Fixed::unit()), (fx(0.0), fx(1.0)));
}

// ---------------------------------------------------------------- text

#[test]
fn words_and_lines() {
    let all = lines(&chars_of("a b\r\n\n  c\td \nlast"));
    let show: Vec<Vec<String>> = all.iter().map(|l| words(l).iter().map(|w| w.iter().collect()).collect()).collect();
    assert_eq!(show, vec![vec!["a", "b"], vec![], vec!["c", "d"], vec!["last"]]);
    assert_eq!(lines(&chars_of("x\n")).len(), 1);
    assert_eq!(lines(&chars_of("")).len(), 0);
    assert!(space(' ') && space('\t') && !space('x'));
    assert!(same(&text("abc"), &text("abc")) && !same(&text("abc"), &text("abd")));
    assert!(equals(&text("mesh"), "mesh") && !equals(&text("mes"), "mesh"));
    assert_eq!(lower_case(&text("PeC 1")), text("pec 1"));
    let page = read_page("2 x\n", read);
    assert_eq!((page[0][0].num, page[0][1].num), (Some(F(2.0)), None));
}

#[test]
fn whole_numbers() {
    assert_eq!(parse_i64(&text("-42")), Some(-42));
    assert_eq!(parse_i64(&text("+7")), Some(7));
    assert_eq!(parse_i64(&text("9223372036854775807")), Some(i64::MAX));
    assert_eq!(parse_i64(&text("-9223372036854775808")), Some(i64::MIN));
    assert_eq!(parse_i64(&text("9223372036854775808")), None);
    assert_eq!(parse_i64(&text("")), None);
    assert_eq!(parse_i64(&text("-")), None);
    assert_eq!(parse_i64(&text("1.0")), None);
    assert_eq!(parse_usize(&text("12")), Some(12));
    assert_eq!(parse_usize(&text("-1")), None);
    assert_eq!(spell(-305), text("-305"));
    assert_eq!(spell(0), text("0"));
    assert_eq!(parse_i64(&spell(i64::MIN)), Some(i64::MIN));
}

// ---------------------------------------------------------------- ordering

#[test]
fn ordering_of_a_path() {
    assert_eq!(rcm(3, &[(0, 1), (1, 2)]), vec![2, 1, 0]);
    // the seed is the first vertex of least degree
    assert_eq!(rcm(3, &[(0, 1), (0, 2), (0, 0)]), vec![1, 2, 0]);
    assert_eq!(rcm(0, &[]), Vec::<usize>::new());
    assert_eq!(rcm(4, &[]), vec![3, 2, 1, 0]);
}

#[test]
fn ordering_is_a_permutation() {
    let keys: Vec<(u32, u32)> = vec![(0, 5), (5, 3), (3, 1), (1, 0), (2, 4), (4, 4), (6, 2), (3, 0)];
    let perm = rcm(8, &keys);
    let mut seen = perm.clone();
    seen.sort();
    assert_eq!(seen, (0..8).collect::<Vec<usize>>());
    assert_eq!(sort_by_degree(&vec![2, 0, 1, 0], &vec![0, 1, 2, 3]), vec![1, 3, 2, 0]);
}

// A vertex follows a neighbour of it, unless all that is connected to the
// vertices before it has been visited.
#[test]
fn ordering_is_breadth_first() {
    let keys: Vec<(u32, u32)> = vec![(0, 5), (5, 3), (3, 1), (1, 0), (2, 4), (4, 4), (6, 2), (3, 0)];
    let perm = rcm(8, &keys);
    let mut order = vec![0usize; 8];
    for (old, new) in perm.iter().enumerate() {
        order[7 - new] = old;
    }
    let near = |a: usize, b: usize| keys.iter().any(|&(x, y)| (x as usize, y as usize) == (a, b) || (y as usize, x as usize) == (a, b));
    for k in 0..8 {
        let reached = (0..k).any(|j| near(order[j], order[k]));
        let closed = (0..k).all(|j| (k..8).all(|l| !near(order[j], order[l])));
        assert!(reached || closed, "{:?} at {}", order, k);
    }
    // the isolated vertex has the least degree and is visited first
    assert_eq!(order[0], 7);
}

// A key that joins a vertex to itself names no neighbour, whatever the vertex.
#[test]
fn ordering_skips_the_diagonal() {
    assert_eq!(rcm(3, &[(0, 1), (9, 9), (1, 2), (1, 1)]), vec![2, 1, 0]);
    assert_eq!(rcm(0, &[(5, 5)]), Vec::<usize>::new());
}

#[test]
fn one_more_isolated_vertex() {
    let keys: Vec<(u32, u32)> = vec![(1, 3), (3, 4), (2, 2), (6, 4)];
    let isolated = [0usize, 2, 5];
    let (r, s) = (rcm(7, &keys), rcm(8, &keys));
    assert_eq!(s[7], 7 - isolated.len());
    for v in 0..7 {
        assert_eq!(s[v], if isolated.contains(&v) { r[v] + 1 } else { r[v] }, "vertex {}", v);
    }
    // the lowest index has the highest number
    assert_eq!((s[0], s[2], s[5], s[7]), (7, 6, 5, 4));
}

#[test]
fn pairs_are_numbered_once() {
    let mut t = PairTable::new(4);
    assert_eq!(t.place(2, 3), 0);
    assert_eq!(t.place(0, 1), 1);
    assert_eq!(t.place(2, 3), 0);
    assert_eq!(t.find(0, 1), Some(1));
    assert_eq!(t.find(1, 0), None);
    assert_eq!(t.pairs, vec![(2, 3), (0, 1)]);
}

#[test]
fn profile_of_a_matrix() {
    let p = lay_out(3, &vec![(0, 0), (0, 1), (1, 1), (1, 2), (2, 2)]).ok().unwrap();
    assert_eq!(p.perm, vec![2, 1, 0]);
    assert_eq!(p.frow, vec![0, 0, 1]);
    assert_eq!(p.off, vec![0, 1, 3]);
    assert_eq!(p.len, 5);
    assert_eq!(p.places, vec![4, 3, 2, 1, 0]);
}

#[test]
fn small_sorts() {
    let mut v: Vec<usize> = vec![7, 3, 9, 3];
    sort_few(&mut v);
    assert_eq!(v, vec![3, 3, 7, 9]);
    assert_eq!(find_last(&vec![4, 5, 4], 4), Some(2));
    assert_eq!(find_last(&vec![4, 5, 4], 6), None);
}

#[test]
fn workers_of_a_sweep() {
    assert_eq!(workers(8, 3, 10, 1000), 3);
    assert_eq!(workers(8, 30, 300, 1000), 3);
    assert_eq!(workers(8, 30, 3000, 1000), 1);
    assert_eq!(workers(8, 30, 0, 1000), 8);
    assert_eq!(workers(0, 30, 0, 1000), 1);
}

#[test]
fn worst_of_a_sweep() {
    let row = |f: f64, spread: f64, residual: f64| Row {
        f: F(f),
        point: Point { columns: vec![], spread: F(spread), residual: F(residual) },
    };
    assert_eq!(worst::<F>(&vec![]), (F(0.0), F(0.0)));
    assert_eq!(worst(&vec![row(1.0, 30.0, 1e-15), row(2.0, 10.0, 4e-14), row(3.0, 20.0, 2e-14)]), (F(30.0), F(4e-14)));
}

// ---------------------------------------------------------------- linear algebra

// [ 4 1 0 ]
// [ 1 3 2 ]   with the profile of a band
// [ 0 2 5 ]
fn band() -> (Vec<usize>, Vec<usize>, Vec<Cx<F>>) {
    let r = |x: f64| cx(F(x), F(0.0));
    (vec![0, 0, 1], vec![0, 1, 3], vec![r(4.0), r(1.0), r(3.0), r(2.0), cx(F(5.0), F(1.0))])
}

#[test]
fn factors_and_solution() {
    let (frow, off, mut a) = band();
    assert!(factor(3, &frow, &off, &mut a).is_ok());
    assert!(near(a[0].re.0, 4.0) && near(a[1].re.0, 0.25) && near(a[2].re.0, 2.75));
    assert!(near(a[3].re.0, 2.0 / 2.75) && near(a[4].re.0, 5.0 - 4.0 / 2.75) && near(a[4].im.0, 1.0));
    let mut b = vec![cx(F(6.0), F(0.0)), cx(F(13.0), F(0.0)), cx(F(19.0), F(3.0))];
    solve(3, &frow, &off, &a, &mut b);
    for (x, want) in b.iter().zip([1.0, 2.0, 3.0]) {
        assert!(near(x.re.0, want) && x.im.0.abs() < 1e-12, "{:?}", x.re);
    }
}

// The leading columns alone: later columns neither count nor change.
#[test]
fn leading_columns_alone() {
    let (frow, off, start) = band();
    let (mut whole, mut part) = (start.clone(), start.clone());
    assert!(factor(3, &frow, &off, &mut whole).is_ok());
    assert!(factor(2, &frow, &off, &mut part).is_ok());
    let show = |z: &Cx<F>| (z.re.0, z.im.0);
    for k in 0..3 {
        assert_eq!(show(&part[k]), show(&whole[k]));
    }
    for k in 3..5 {
        assert_eq!(show(&part[k]), show(&start[k]));
    }
    // 4 x + y = 6, x + 3 y = 7
    let mut b = vec![cx(F(6.0), F(0.0)), cx(F(7.0), F(0.0)), cx(F(8.0), F(9.0))];
    solve(2, &frow, &off, &part, &mut b);
    assert!(near(b[0].re.0, 1.0) && near(b[1].re.0, 2.0));
    assert_eq!(show(&b[2]), (8.0, 9.0));
}

#[test]
fn longer_right_hand_side() {
    let (frow, off, mut a) = band();
    assert!(factor(3, &frow, &off, &mut a).is_ok());
    let mut b: Vec<Cx<F>> = [6.0, 13.0, 19.0, 7.0, -2.0].iter().map(|x| cx(F(*x), F(0.0))).collect();
    b[2] = cx(F(19.0), F(3.0));
    solve(3, &frow, &off, &a, &mut b);
    for (x, want) in b.iter().zip([1.0, 2.0, 3.0, 7.0, -2.0]) {
        assert!(near(x.re.0, want) && x.im.0.abs() < 1e-12, "{:?}", x.re);
    }
    assert_eq!((b[3].re, b[4].re), (F(7.0), F(-2.0)));
}

#[test]
fn singular_matrices() {
    let zero = cx(F(0.0), F(0.0));
    let mut a = vec![zero];
    assert!(factor(1, &vec![0], &vec![0], &mut a).is_err());
    let one = cx(F(1.0), F(0.0));
    let mut a = vec![one, one, one];
    assert!(factor(2, &vec![0, 0], &vec![0, 1], &mut a).is_err());
    assert!(prepare(1, &vec![0], &vec![0], &vec![zero]).is_err());
}

#[test]
fn refined_solution() {
    let (frow, off, a) = band();
    let (d, s) = balance(3, &frow, &off, &a);
    assert!(near(d[0].re.0, 0.5) && near(s[0].re.0, 1.0) && near(s[2].re.0, 1.0));
    assert!(near(s[1].re.0, 1.0 / (12.0f64).sqrt()));
    let f = prepare(3, &frow, &off, &a).ok().unwrap();
    let b = vec![cx(F(1.0), F(2.0)), cx(F(-3.0), F(0.5)), cx(F(4.0), F(0.0))];
    let x = solve_refined(3, &frow, &off, &a, &f, &b);
    for r in residual_of(3, &frow, &off, &a, &b, &x) {
        assert!(r.mag().0 < 1e-14);
    }
    assert!(measure(3, &frow, &off, &a, &b, &x).0 < 1e-15);
    let none = vec![cx(F(0.0), F(0.0)); 3];
    assert_eq!(measure(3, &frow, &off, &a, &b, &none), F(1.0));
    let spread = spread_of(3, &frow, &off, &a, &f).0;
    let smallest = (1.0f64 - 1.0 / 12.0).min(spread);
    assert!(spread >= 1.0 && smallest > 0.0);
    assert_eq!(spread_of(1, &vec![0], &vec![0], &vec![cx(F(9.0), F(0.0))], &prepare(1, &vec![0], &vec![0], &vec![cx(F(9.0), F(0.0))]).ok().unwrap()), F(1.0));
}

// ---------------------------------------------------------------- elements

fn unit_tet() -> TetShape<F> {
    shape_tet(v3(0.0, 0.0, 0.0), v3(1.0, 0.0, 0.0), v3(0.0, 1.0, 0.0), v3(0.0, 0.0, 1.0)).unwrap()
}

fn medium(eps: f64, mur: f64, sigma: f64) -> Medium<F> {
    Medium { eps: cx(F(eps), F(0.0)), mur: F(mur), sigma: F(sigma), tensor: stretch(v3(0.0, 0.0, 0.0)) }
}

#[test]
fn element_of_the_unit_tetrahedron() {
    let t = unit_tet();
    assert!(near(t.vol.0, 1.0 / 6.0));
    assert_eq!((t.g0.x, t.g0.y, t.g0.z), (F(-1.0), F(-1.0), F(-1.0)));
    assert_eq!((t.g2.x, t.g2.y, t.g2.z), (F(0.0), F(1.0), F(0.0)));
    let e = part_of_tet(&t, &medium(2.0, 4.0, 0.5), 0, 0);
    assert!(near(e.s.re.0, 4.0 / 3.0 / 4.0) && e.s.im.0 == 0.0);
    assert!(near(e.m.re.0, 2.0 / 12.0) && e.m.im.0 == 0.0);
    assert!(near(e.b.re.0, ETA0 * 0.5 / 12.0));
    assert_eq!(e.w.re, F(0.0));
    assert!(shape_tet(v3(0.0, 0.0, 0.0), v3(1.0, 0.0, 0.0), v3(2.0, 0.0, 0.0), v3(0.0, 0.0, 1.0)).is_none());
    // orientation does not matter for the volume
    let m = shape_tet(v3(1.0, 0.0, 0.0), v3(0.0, 0.0, 0.0), v3(0.0, 1.0, 0.0), v3(0.0, 0.0, 1.0)).unwrap();
    assert!(near(m.vol.0, 1.0 / 6.0));
}

#[test]
fn element_matrices_are_symmetric() {
    let t = shape_tet(v3(0.1, 0.0, 0.0), v3(1.0, 0.2, 0.0), v3(0.0, 1.3, 0.1), v3(0.4, 0.0, 1.0)).unwrap();
    let m = Medium { eps: cx(F(2.0), F(-0.3)), mur: F(1.5), sigma: F(0.1), tensor: stretch(v3(1.0, 0.0, 2.0)) };
    for i in 0..6 {
        for j in 0..6 {
            let (a, b) = (part_of_tet(&t, &m, i, j), part_of_tet(&t, &m, j, i));
            assert!(a.s.sub(b.s).mag().0 < 1e-12 && a.m.sub(b.m).mag().0 < 1e-12 && a.b.sub(b.b).mag().0 < 1e-9);
        }
    }
}

// The stiffness matrix does not see the gradient of a function of the corners.
#[test]
fn stiffness_of_a_gradient() {
    let t = shape_tet(v3(0.1, 0.0, 0.0), v3(1.0, 0.2, 0.0), v3(0.0, 1.3, 0.1), v3(0.4, 0.0, 1.0)).unwrap();
    let f = [3.0, -1.0, 4.0, 1.5];
    for i in 0..6 {
        let mut s = 0.0;
        for j in 0..6 {
            let (a, b) = tet_pair(j);
            s += part_of_tet(&t, &medium(1.0, 1.0, 0.0), i, j).s.re.0 * (f[b] - f[a]);
        }
        assert!(s.abs() < 1e-12, "row {}: {}", i, s);
    }
}

// Along its own edge an edge function has the component one, along the other
// edges zero.
#[test]
fn edge_functions_along_edges() {
    let p = [v3(0.1, 0.0, 0.0), v3(1.0, 0.2, 0.0), v3(0.0, 1.3, 0.1), v3(0.4, 0.0, 1.0)];
    let t = shape_tet(p[0], p[1], p[2], p[3]).unwrap();
    let g = [t.g0, t.g1, t.g2, t.g3];
    for i in 0..6 {
        for j in 0..6 {
            let ((a, b), (c, d)) = (tet_pair(i), tet_pair(j));
            let mut l = [0.0; 4];
            l[c] = 0.75;
            l[d] = 0.25;
            let along = sub3(p[d], p[c]);
            let w = l[a] * dot3(g[b], along).0 - l[b] * dot3(g[a], along).0;
            let want = if i == j { 1.0 } else { 0.0 };
            assert!((w - want).abs() < 1e-12, "{} {}: {}", i, j, w);
        }
    }
}

#[test]
fn gradients_on_a_triangle() {
    let p = [v3(0.1, 0.0, 0.3), v3(1.0, 0.2, 0.0), v3(0.0, 1.3, 0.1)];
    let t = shape_tri(p[0], p[1], p[2]);
    let g = [t.g0, t.g1, t.g2];
    for i in 0..3 {
        for j in 0..3 {
            for k in 0..3 {
                let rise = dot3(g[i], sub3(p[k], p[j])).0;
                let want = (i == k) as i32 as f64 - (i == j) as i32 as f64;
                assert!((rise - want).abs() < 1e-12);
            }
        }
    }
}

// A conductivity is an imaginary part of the permittivity at any frequency.
#[test]
fn conduction_is_a_loss() {
    let t = unit_tet();
    let k0 = 7.0;
    let a = part_of_tet(&t, &medium(2.0, 1.0, 0.25), 0, 3).at(F(k0));
    let mut m = medium(2.0, 1.0, 0.0);
    m.eps = cx(F(2.0), F(-ETA0 * 0.25 / k0));
    let b = part_of_tet(&t, &m, 0, 3).at(F(k0));
    assert!(a.sub(b).mag().0 < 1e-12 * a.mag().0, "{:?} {:?}", a.im, b.im);
}

#[test]
fn entries_at_a_wave_number() {
    let e = Entry { s: cx(F(1.0), F(0.0)), b: cx(F(2.0), F(1.0)), m: cx(F(3.0), F(0.0)), w: cx(F(5.0), F(5.0)) };
    let z = e.at(F(4.0));
    // 1 - 16 * 3 + 4j (2 + j) + 2 (5 + 5j)
    assert_eq!((z.re, z.im), (F(1.0 - 48.0 - 4.0 + 10.0), F(8.0 + 10.0)));
    let d = e.add(e);
    assert_eq!((d.s.re, d.b.im, d.m.re, d.w.im), (F(2.0), F(2.0), F(6.0), F(10.0)));
    assert_eq!(Entry::<F>::nil().at(F(4.0)).re, F(0.0));
}

#[test]
fn element_of_the_unit_triangle() {
    let t = shape_tri(v3(0.0, 0.0, 0.0), v3(1.0, 0.0, 0.0), v3(0.0, 1.0, 0.0));
    assert!(near(t.area.0, 0.5));
    assert_eq!((t.g0.x, t.g0.y, t.g0.z), (F(-1.0), F(-1.0), F(0.0)));
    assert!(near(mass_of_tri(&t, 0, 0).0, 1.0 / 3.0));
    assert!(near(mass_of_tri(&t, 0, 1).0, mass_of_tri(&t, 1, 0).0));
    assert!(near(moment_of_tri(&t, v3(1.0, 0.0, 0.0), 0).0, 1.0 / 3.0));
}

#[test]
fn stretch_of_coordinates() {
    let one = stretch(v3(0.0, 0.0, 0.0));
    assert_eq!((one.x.re, one.x.im, one.z.re), (F(1.0), F(0.0), F(1.0)));
    // along x alone: 1 / s across, s along the other axes, s = 1 - 3j
    let t = stretch(v3(3.0, 0.0, 0.0));
    assert!(near(t.x.re.0, 0.1) && near(t.x.im.0, 0.3));
    assert!(near(t.y.re.0, 1.0) && near(t.y.im.0, -3.0) && near(t.z.im.0, -3.0));
}

// ---------------------------------------------------------------- mesh and groups

// Two tetrahedra on a common face, with a boundary triangle of each kind.
fn double_tet() -> Mesh<F> {
    let t = |a: usize, b: usize, c: usize, d: usize, group: usize| Tet { a, b, c, d, group };
    let s = |a: usize, b: usize, c: usize, group: usize| Tri { a, b, c, group };
    Mesh {
        nodes: vec![v3(0.0, 0.0, 0.0), v3(1.0, 0.0, 0.0), v3(0.0, 1.0, 0.0), v3(0.0, 0.0, 1.0), v3(1.0, 1.0, 1.0)],
        tets: vec![t(0, 1, 2, 3, 0), t(1, 2, 3, 4, 1)],
        tris: vec![s(0, 1, 2, 2), s(1, 2, 4, 3), s(1, 2, 3, 4), s(0, 1, 3, 5), s(0, 2, 3, 6)],
        names: ["air", "sub", "wall", "open", "mid", "feed", "cu"].iter().map(|n| text(n)).collect(),
    }
}

#[test]
fn edges_and_unknowns() {
    let mesh = double_tet();
    let table = number_edges(&mesh);
    assert_eq!(table.pairs, vec![(0, 1), (0, 2), (0, 3), (1, 2), (1, 3), (2, 3), (1, 4), (2, 4), (3, 4)]);
    for (a, b) in &table.pairs {
        assert!(a < b);
    }
    let mut roles: Vec<Role<F>> = vec![Role::Natural; 7];
    roles[2] = Role::Pec;
    let fixed = constrain(&mesh, &roles, &table).ok().unwrap();
    assert_eq!(fixed, vec![true, true, false, true, false, false, false, false, false]);
    let (dof, n) = number_unknowns(&fixed);
    assert_eq!(n, 6);
    assert_eq!(dof, vec![None, None, Some(0), None, Some(1), Some(2), Some(3), Some(4), Some(5)]);
    let mut bad = double_tet();
    bad.tris.push(Tri { a: 0, b: 1, c: 4, group: 2 });
    assert_eq!(constrain(&bad, &roles, &table).err(), Some(ModelError::Mismatch));
    assert_eq!((tet_corner(&mesh.tets[1], 3), tri_corner(&mesh.tris[1], 2)), (4, 4));
    assert_eq!((tet_pair(4), tri_pair(2)), ((1, 3), (1, 2)));
}

#[test]
fn tetrahedra_behind_faces() {
    let mesh = double_tet();
    let faces = collect_faces(&mesh);
    assert_eq!(tet_behind(&mesh.tets, &faces, &mesh.tris[0]), Some(0));
    assert_eq!(tet_behind(&mesh.tets, &faces, &mesh.tris[1]), Some(1));
    // of two tetrahedra on a face the later one counts
    assert_eq!(tet_behind(&mesh.tets, &faces, &mesh.tris[2]), Some(1));
    assert_eq!(tet_behind(&mesh.tets, &faces, &Tri { a: 0, b: 1, c: 4, group: 0 }), None);
}

fn deck_of(cards: &str) -> Deck<F> {
    match parse_deck(&format!("mesh m\n{}\nsweep lin 1e9 1e9 1\n", cards), read) {
        Ok(d) => d,
        Err(e) => panic!("{}", e.message()),
    }
}

#[test]
fn roles_of_groups() {
    let mesh = double_tet();
    let deck = deck_of(
        "mat sub eps 3 tand 0.1\nmat sub eps 4 tand 0.5 mur 2\npec wall open\nabc open\nmetal cu 10\npml sub 3 0 0\nport 1 feed 0 0 1 50",
    );
    let g = assign(&deck, &mesh).ok().unwrap();
    assert!(matches!(g.roles[2], Role::Pec));
    assert!(matches!(g.roles[3], Role::Abc));
    assert!(matches!(g.roles[6], Role::Metal(F(s)) if s == 10.0));
    // a group that no card names is a natural boundary, and vacuum
    assert!(matches!(g.roles[4], Role::Natural));
    assert_eq!(g.ports, vec![None, None, None, None, None, Some(0), None]);
    assert_eq!((g.media[0].eps.re, g.media[0].eps.im.0, g.media[0].mur, g.media[0].sigma), (F(1.0), 0.0, F(1.0), F(0.0)));
    assert_eq!((g.media[0].tensor.x.re, g.media[0].tensor.x.im), (F(1.0), F(0.0)));
    // of two cards for a group the later one counts
    assert_eq!((g.media[1].eps.re, g.media[1].eps.im, g.media[1].mur), (F(4.0), F(-2.0), F(2.0)));
    assert!(near(g.media[1].tensor.y.im.0, -3.0));
}

#[test]
fn system_tells_of_its_groups() {
    let mesh = double_tet();
    let s = build(&deck_of("pec wall\nabc open\nmetal cu 10\nport 1 feed 0 0 1 50"), &mesh).ok().unwrap();
    assert_eq!(s.groups.roles.len(), 7);
    assert!(matches!(s.groups.roles[2], Role::Pec));
    assert!(matches!(s.groups.roles[3], Role::Abc));
    assert!(matches!(s.groups.roles[4], Role::Natural));
    assert!(matches!(s.groups.roles[6], Role::Metal(F(v)) if v == 10.0));
    assert_eq!(s.groups.ports, vec![None, None, None, None, None, Some(0), None]);
}

fn model_error(mesh: &Mesh<F>, cards: &str) -> ModelError {
    match build(&deck_of(cards), mesh) {
        Ok(_) => panic!("accepted"),
        Err(e) => e,
    }
}

#[test]
fn model_errors() {
    let mesh = double_tet();
    let port = "port 1 feed 0 0 1 50";
    assert_eq!(
        model_error(&mesh, &format!("pec wall door\n{}", port)),
        ModelError::UnknownGroup { kind: CardKind::Pec, index: 1 }
    );
    assert_eq!(
        model_error(&mesh, &format!("abc air\n{}", port)),
        ModelError::NoTriangles { kind: CardKind::Abc, index: 0 }
    );
    assert_eq!(
        model_error(&mesh, &format!("pml wall 1 1 1\n{}", port)),
        ModelError::NoTets { kind: CardKind::Pml, index: 0 }
    );
    assert_eq!(model_error(&mesh, "port 1 feed 0 1 0 50"), ModelError::EmptyPort { port: 0 });
    let mut flat = double_tet();
    flat.nodes[4] = flat.nodes[3];
    assert_eq!(model_error(&flat, port), ModelError::Degenerate);
    let mut loose = double_tet();
    loose.tris.push(Tri { a: 0, b: 1, c: 4, group: 6 });
    assert_eq!(model_error(&loose, &format!("metal cu 10\n{}", port)), ModelError::Mismatch);
    let mut loose = double_tet();
    loose.tris.push(Tri { a: 0, b: 3, c: 4, group: 3 });
    assert_eq!(model_error(&loose, &format!("abc open\n{}", port)), ModelError::Mismatch);
}

// The matrix is what the elements add up to, at the places of the profile.
#[test]
fn matrix_entries() {
    let mesh = double_tet();
    let deck = deck_of("mat sub eps 4 tand 0.5 mur 2\npec wall\nport 1 feed 0 0 1 50");
    let system = build(&deck, &mesh).ok().unwrap();
    let k0 = F(0.7);
    let a = system.fill(k0);
    assert_eq!(a.len(), system.profile.len);
    // the edge from node 2 to node 3 belongs to both tetrahedra, and to no sheet
    let d = system.frame.unknown(2, 3).unwrap();
    let g = assign(&deck, &mesh).ok().unwrap();
    let mut want = Entry::nil();
    for t in &mesh.tets {
        let shape = shape_tet(mesh.nodes[t.a], mesh.nodes[t.b], mesh.nodes[t.c], mesh.nodes[t.d]).unwrap();
        for i in 0..6 {
            let (p, q) = tet_pair(i);
            if (tet_corner(t, p), tet_corner(t, q)) == (2, 3) {
                want = want.add(part_of_tet(&shape, &g.media[t.group], i, i));
            }
        }
    }
    let j = system.profile.perm[d];
    let got = a[system.profile.off[j] + j - system.profile.frow[j]];
    assert!(got.sub(want.at(k0)).mag().0 < 1e-12 * got.mag().0);
    assert_eq!(system.frame.unknown(0, 1), None);
    assert_eq!(system.frame.unknown(0, 4), None);
}

// A sheet of metal, times the square root of the wave number and the surface
// impedance, is j k0 eta0.
#[test]
fn skin_effect() {
    let (sigma, f) = (5.8e7, 1e9);
    let k0 = 2.0 * PI * f / C0;
    let mesh = double_tet();
    let deck = deck_of(&format!("metal cu {}\nport 1 feed 0 0 1 50", sigma));
    let with = build(&deck, &mesh).ok().unwrap();
    let without = build(&deck_of("port 1 feed 0 0 1 50"), &mesh).ok().unwrap();
    let place = |s: &nanofem::system::System<F>| {
        let j = s.profile.perm[s.frame.unknown(2, 3).unwrap()];
        s.fill(F(k0))[s.profile.off[j] + j - s.profile.frow[j]]
    };
    let sheet = place(&with).sub(place(&without));
    let t = shape_tri(mesh.nodes[0], mesh.nodes[2], mesh.nodes[3]);
    let w = sheet.rs(F(1.0 / mass_of_tri(&t, 2, 2).0));
    let rs = (k0 * ETA0 / (2.0 * sigma)).sqrt();
    let z = w.mul(cx(F(rs), F(rs)));
    assert!(z.re.0.abs() < 1e-6 * k0 * ETA0 && (z.im.0 / (k0 * ETA0) - 1.0).abs() < 1e-6, "{:?} {:?}", z.re, z.im);
}

#[test]
fn port_goes_before_boundary() {
    // the same group as a port and as an absorbing boundary is a port
    let mesh = double_tet();
    let both = build(&deck_of("abc feed\nport 1 feed 0 0 1 50"), &mesh).ok().unwrap();
    let port = build(&deck_of("port 1 feed 0 0 1 50"), &mesh).ok().unwrap();
    let (a, b) = (both.fill(F(1.0)), port.fill(F(1.0)));
    assert_eq!(a.len(), b.len());
    for (x, y) in a.iter().zip(&b) {
        assert_eq!((x.re, x.im), (y.re, y.im));
    }
}

#[test]
fn solves_in_fixed_point() {
    // a mesh in fixed point numbers: the geometry is exact
    let fixed = |w: &Vec<char>| -> Option<Fixed> {
        let s: String = w.iter().collect();
        s.parse::<f64>().ok().map(fx)
    };
    let mesh = parse_msh("$Nodes\n4\n1 0 0 0\n2 4 0 0\n3 0 4 0\n4 0 0 4\n$EndNodes\n$Elements\n2\n1 4 0 1 2 3 4\n2 2 1 5 1 2 3\n$EndElements\n", fixed).ok().unwrap();
    let t = shape_tet(mesh.nodes[0], mesh.nodes[1], mesh.nodes[2], mesh.nodes[3]).unwrap();
    assert_eq!((t.g1.x, t.g0.z), (fx(0.25), fx(-0.25)));
    let deck = parse_deck("mesh m\nport 1 5 1 0 0 50\nsweep lin 1000 1000 1\n", fixed).ok().unwrap();
    let s = build(&deck, &mesh).ok().unwrap();
    assert_eq!((s.ports[0].area, s.ports[0].h, s.ports[0].w), (fx(8.0), fx(4.0), fx(2.0)));
}

// A medium that carries next to nothing leaves pivots that count as zero.
#[test]
fn singular_system() {
    let mesh = parse_msh("$Nodes\n4\n1 0 0 0\n2 1 0 0\n3 0 1 0\n4 0 0 1\n$EndNodes\n$Elements\n2\n1 4 0 1 2 3 4\n2 2 1 5 1 2 3\n$EndElements\n", read).ok().unwrap();
    let deck = deck_of("mat 0 eps 1e-310 mur 1e305\nport 1 5 1 0 0 50");
    assert_eq!(simulate(&deck, &mesh).err(), Some(ModelError::Singular));
    let s = build(&deck, &mesh).ok().unwrap();
    assert_eq!(s.snapshot(&mesh, F(20.0)).err(), Some(ModelError::Singular));
    let vacuum = deck_of("port 1 5 1 0 0 50");
    assert!(simulate(&vacuum, &mesh).is_ok());
}
