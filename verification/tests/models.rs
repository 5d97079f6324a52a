//! Whole models, solved in double precision and held against closed forms.

use nanofem::deck::{parse_deck, Deck, DeckError, Output};
use nanofem::derived::{admittances, coils, impedances};
use nanofem::groups::ModelError;
use nanofem::msh::{parse_msh, Mesh, MeshError};
use nanofem::scalar::{Algebra, Constants, Cx, Number, Scalar};
use nanofem::sweep::{frequency_at, lay_lines, simulate, wave_number_at};
use nanofem::system::build;
use std::collections::BTreeMap;

const ETA0: f64 = 376.73031346177066;
const C0: f64 = 299792458.0;
const PI: f64 = std::f64::consts::PI;

#[derive(Clone, Copy, Debug, PartialEq)]
struct F(f64);

impl Algebra for F {
    fn zero() -> F { F(0.0) }
    fn one() -> F { F(1.0) }
    fn spec_add(self, o: F) -> F { F(self.0 + o.0) }
    fn spec_sub(self, o: F) -> F { F(self.0 - o.0) }
    fn spec_mul(self, o: F) -> F { F(self.0 * o.0) }
    fn spec_neg(self) -> F { F(-self.0) }
    fn over(self, o: F) -> F { F(self.0 / o.0) }
}

impl Number for F {
    fn less(self, o: F) -> bool { self.0 < o.0 }
    fn at_most(self, o: F) -> bool { self.0 <= o.0 }
    fn root(self) -> F { F(self.0.sqrt()) }
    fn hypotenuse(self, o: F) -> F { F(self.0.hypot(o.0)) }
    fn number(n: usize) -> F { F(n as f64) }
    fn to_count(self) -> usize { self.0 as usize }
    fn to_id(self) -> i64 { self.0 as i64 }
    fn half_angle(re: F, im: F) -> (F, F) {
        let t = im.0.atan2(re.0) / 2.0;
        (F(t.cos()), F(t.sin()))
    }
    fn constants() -> Constants<F> {
        Constants {
            c0: F(C0),
            eta0: F(ETA0),
            two_pi: F(2.0 * PI),
            largest: F(f64::MAX),
            lowest: F(f64::MIN),
            tiny: F(1e-300),
            nan: F(f64::NAN),
        }
    }
}

impl Scalar for F {
    fn nil() -> F { F(0.0) }
    fn unit() -> F { F(1.0) }
    fn add(self, o: F) -> F { F(self.0 + o.0) }
    fn sub(self, o: F) -> F { F(self.0 - o.0) }
    fn mul(self, o: F) -> F { F(self.0 * o.0) }
    fn neg(self) -> F { F(-self.0) }
    fn div(self, o: F) -> F { F(self.0 / o.0) }
    fn lt(self, o: F) -> bool { self.0 < o.0 }
    fn le(self, o: F) -> bool { self.0 <= o.0 }
    fn sqrt(self) -> F { F(self.0.sqrt()) }
    fn hypot(self, o: F) -> F { F(self.0.hypot(o.0)) }
    fn half_arg(re: F, im: F) -> (F, F) { F::half_angle(re, im) }
    fn of(n: usize) -> F { F(n as f64) }
    fn as_usize(self) -> usize { self.0 as usize }
    fn as_i64(self) -> i64 { self.0 as i64 }
    fn known() -> Constants<F> { F::constants() }
}

fn read(word: &Vec<char>) -> Option<F> {
    let s: String = word.iter().collect();
    s.parse().ok().map(F)
}

// Structured box mesh in Gmsh 2.2 ASCII, each grid cell split into 6
// tetrahedra (Kuhn split, consistent across cells). Boundary triangles are
// classified by their centroid: sname returns Some(physical name) to emit
// the triangle, None leaves the face natural. vname names the region of a
// tet by its cell center.
fn box_msh(
    n: [usize; 3],
    l: [f64; 3],
    sname: &dyn Fn(f64, f64, f64) -> Option<&'static str>,
    vname: &dyn Fn(f64, f64, f64) -> &'static str,
) -> String {
    let (nx, ny, nz) = (n[0], n[1], n[2]);
    let d = [l[0] / nx as f64, l[1] / ny as f64, l[2] / nz as f64];
    let nid = |v: [usize; 3]| 1 + v[0] + v[1] * (nx + 1) + v[2] * (nx + 1) * (ny + 1);
    let pos = |id: usize| -> [f64; 3] {
        let q = id - 1;
        [
            (q % (nx + 1)) as f64 * d[0],
            ((q / (nx + 1)) % (ny + 1)) as f64 * d[1],
            (q / ((nx + 1) * (ny + 1))) as f64 * d[2],
        ]
    };
    let perms: [[usize; 3]; 6] = [[0, 1, 2], [0, 2, 1], [1, 0, 2], [1, 2, 0], [2, 0, 1], [2, 1, 0]];
    let mut tets: Vec<([usize; 4], &str)> = vec![];
    for k in 0..nz {
        for j in 0..ny {
            for i in 0..nx {
                let nm = vname((i as f64 + 0.5) * d[0], (j as f64 + 0.5) * d[1], (k as f64 + 0.5) * d[2]);
                for p in perms {
                    let mut v = [[i, j, k]; 4];
                    for s in 0..3 {
                        v[s + 1] = v[s];
                        v[s + 1][p[s]] += 1;
                    }
                    tets.push(([nid(v[0]), nid(v[1]), nid(v[2]), nid(v[3])], nm));
                }
            }
        }
    }
    let mut count: BTreeMap<[usize; 3], u32> = BTreeMap::new();
    for (t, _) in &tets {
        for f in [[0, 1, 2], [0, 1, 3], [0, 2, 3], [1, 2, 3]] {
            let mut key = [t[f[0]], t[f[1]], t[f[2]]];
            key.sort();
            *count.entry(key).or_insert(0) += 1;
        }
    }
    let mut tris: Vec<([usize; 3], &str)> = vec![];
    for (key, c) in &count {
        if *c != 1 {
            continue;
        }
        let (p0, p1, p2) = (pos(key[0]), pos(key[1]), pos(key[2]));
        let cen = [
            (p0[0] + p1[0] + p2[0]) / 3.0,
            (p0[1] + p1[1] + p2[1]) / 3.0,
            (p0[2] + p1[2] + p2[2]) / 3.0,
        ];
        if let Some(nm) = sname(cen[0], cen[1], cen[2]) {
            tris.push((*key, nm));
        }
    }
    let mut ids: BTreeMap<(i32, &str), usize> = BTreeMap::new();
    for (_, nm) in &tris {
        let n = ids.len() + 1;
        ids.entry((2, nm)).or_insert(n);
    }
    for (_, nm) in &tets {
        let n = ids.len() + 1;
        ids.entry((3, nm)).or_insert(n);
    }
    let mut s = String::from("$MeshFormat\n2.2 0 8\n$EndMeshFormat\n$PhysicalNames\n");
    s += &format!("{}\n", ids.len());
    for ((dim, nm), id) in &ids {
        s += &format!("{} {} \"{}\"\n", dim, id, nm);
    }
    s += "$EndPhysicalNames\n$Nodes\n";
    let nn = (nx + 1) * (ny + 1) * (nz + 1);
    s += &format!("{}\n", nn);
    for id in 1..=nn {
        let p = pos(id);
        s += &format!("{} {} {} {}\n", id, p[0], p[1], p[2]);
    }
    s += "$EndNodes\n$Elements\n";
    s += &format!("{}\n", tris.len() + tets.len());
    let mut eid = 0;
    for (t, nm) in &tris {
        eid += 1;
        s += &format!("{} 2 2 {} 1 {} {} {}\n", eid, ids[&(2, *nm)], t[0], t[1], t[2]);
    }
    for (t, nm) in &tets {
        eid += 1;
        s += &format!("{} 4 2 {} 1 {} {} {} {}\n", eid, ids[&(3, *nm)], t[0], t[1], t[2], t[3]);
    }
    s += "$EndElements\n";
    s
}

fn deck_of(deck: &str) -> Deck<F> {
    match parse_deck(deck, read) {
        Ok(d) => d,
        Err(e) => panic!("deck refused: {}", e.message()),
    }
}

fn mesh_of(msh: &str) -> Mesh<F> {
    match parse_msh(msh, read) {
        Ok(m) => m,
        Err(e) => panic!("mesh refused: {}", e.message()),
    }
}

// Solves a deck, returns (freq, values) rows of the touchstone data
fn run(msh: &str, text: &str) -> Vec<(f64, Vec<f64>)> {
    let deck = deck_of(text);
    let mesh = mesh_of(msh);
    let rows = match simulate(&deck, &mesh) {
        Ok(r) => r,
        Err(e) => panic!("model refused: {}", e.message()),
    };
    assert_eq!(rows.len(), deck.nf);
    let mut out = vec![];
    for row in rows {
        assert!(row.point.residual.0 < 1e-9, "residual {}", row.point.residual.0);
        assert!(row.point.spread.0 >= 1.0, "spread {}", row.point.spread.0);
        let mut v: Vec<f64> = vec![];
        for line in lay_lines(&row.point.columns) {
            for s in line {
                v.push(s.re.0);
                v.push(s.im.0);
            }
        }
        out.push((row.f.0, v));
    }
    out
}

fn mag(re: f64, im: f64) -> f64 {
    re.hypot(im)
}

// wrapped phase difference a - b in (-pi, pi]
fn ang_diff(a: f64, b: f64) -> f64 {
    let mut d = a - b;
    while d > PI {
        d -= 2.0 * PI;
    }
    while d <= -PI {
        d += 2.0 * PI;
    }
    d
}

// Parallel plate TEM line along x: PEC top and bottom, natural (PMC) side
// walls, one port at each end. Line impedance eta h / w = eta for a square
// cross section.
fn line_msh(lx: f64, nx: usize, plates: &'static str, far: Option<&'static str>, fill: &'static str) -> String {
    let lyz = 0.01;
    box_msh(
        [nx, 1, 1],
        [lx, lyz, lyz],
        &move |x, _y, z| {
            if z < 1e-12 || z > lyz - 1e-12 {
                Some(plates)
            } else if x < 1e-12 {
                Some("p1")
            } else if x > lx - 1e-12 {
                far
            } else {
                None
            }
        },
        &move |_, _, _| fill,
    )
}

fn tem_mesh(far: &'static str) -> String {
    line_msh(0.12, 12, "pec", Some(far), "air")
}

#[test]
fn tem_matched() {
    let mesh = tem_mesh("p2");
    let deck = format!(
        "* tem line\nmesh tem.msh\npec pec\nport 1 p1 0 0 1 {}\nport 2 p2 0 0 1 {}\nsweep lin 1e9 1e9 1\n",
        ETA0, ETA0
    );
    let rows = run(&mesh, &deck);
    let v = &rows[0].1;
    let (s11, s21, s12) = (mag(v[0], v[1]), mag(v[2], v[3]), mag(v[4], v[5]));
    assert!(s11 < 0.05, "S11 = {}", s11);
    assert!((s21 - 1.0).abs() < 0.02, "S21 = {}", s21);
    assert!((s12 - s21).abs() < 1e-9 && (v[3] - v[5]).abs() < 1e-9, "not reciprocal");
    let k0l = 2.0 * PI * 1e9 / C0 * 0.12;
    let d = ang_diff(v[3].atan2(v[2]), -k0l);
    assert!(d.abs() < 0.05, "S21 phase error {} rad", d);
}

#[test]
fn tem_dielectric_loss() {
    let mesh = line_msh(0.12, 12, "pec", Some("p2"), "diel");
    let z0 = ETA0 / 1.5;
    let deck = format!(
        "mesh diel.msh\nmat diel eps 2.25 tand 0.02\npec pec\nport 1 p1 0 0 1 {}\nport 2 p2 0 0 1 {}\nsweep lin 1e9 1e9 1\n",
        z0, z0
    );
    let rows = run(&mesh, &deck);
    let v = &rows[0].1;
    let k0 = 2.0 * PI * 1e9 / C0;
    assert!(mag(v[0], v[1]) < 0.05, "S11 = {}", mag(v[0], v[1]));
    let expect = (-1.5 * k0 * 0.01 * 0.12).exp();
    assert!((mag(v[2], v[3]) - expect).abs() < 0.01, "S21 = {} expected {}", mag(v[2], v[3]), expect);
    let d = ang_diff(v[3].atan2(v[2]), -1.5 * k0 * 0.12);
    assert!(d.abs() < 0.08, "S21 phase error {} rad", d);
}

#[test]
fn shorted_line() {
    let mesh = tem_mesh("pec");
    let deck = format!("mesh short.msh\npec pec\nport 1 p1 0 0 1 {}\nsweep lin 1e9 1e9 1\n", ETA0);
    let rows = run(&mesh, &deck);
    let v = &rows[0].1;
    let s11 = mag(v[0], v[1]);
    assert!((s11 - 1.0).abs() < 0.005, "S11 = {}, lossless line should reflect all", s11);
    let k0l = 2.0 * PI * 1e9 / C0 * 0.12;
    let d = ang_diff(v[1].atan2(v[0]), PI - 2.0 * k0l);
    assert!(d.abs() < 0.1, "S11 phase error {} rad", d);
}

#[test]
fn mismatched_port() {
    let mesh = tem_mesh("p2");
    let deck = format!(
        "mesh mis.msh\npec pec\nport 1 p1 0 0 1 {}\nport 2 p2 0 0 1 {}\nsweep lin 1e9 1e9 1\n",
        2.0 * ETA0,
        ETA0
    );
    let rows = run(&mesh, &deck);
    let v = &rows[0].1;
    // line of impedance eta0 matched at the far end, seen through a 2 eta0
    // reference: S11 = (1 - 2) / (1 + 2) = -1/3, no phase
    assert!((v[0] + 1.0 / 3.0).abs() < 0.03 && v[1].abs() < 0.03, "S11 = {} + j {}", v[0], v[1]);
    assert!((v[2] - v[4]).abs() < 1e-9 && (v[3] - v[5]).abs() < 1e-9, "not reciprocal");
}

#[test]
fn abc_absorbs() {
    let mesh = tem_mesh("abc");
    let deck = format!("mesh abc.msh\npec pec\nabc abc\nport 1 p1 0 0 1 {}\nsweep lin 1e9 1e9 1\n", ETA0);
    let rows = run(&mesh, &deck);
    let s11 = mag(rows[0].1[0], rows[0].1[1]);
    assert!(s11 < 0.05, "S11 = {}, abc should absorb the TEM wave", s11);
}

#[test]
fn pml_absorbs() {
    // TEM line running into a 3 cell PML slab stretched along x, natural
    // (PMC) wall behind it: the wave should not come back
    let (lx, lyz) = (0.15, 0.01);
    let mesh = box_msh(
        [15, 1, 1],
        [lx, lyz, lyz],
        &move |x, _y, z| {
            if z < 1e-12 || z > lyz - 1e-12 {
                Some("pec")
            } else if x < 1e-12 {
                Some("p1")
            } else {
                None
            }
        },
        &|x, _, _| if x > 0.12 { "pml" } else { "air" },
    );
    let deck = format!("mesh pml.msh\npec pec\npml pml 3 0 0\nport 1 p1 0 0 1 {}\nsweep lin 1e9 1e9 1\n", ETA0);
    let rows = run(&mesh, &deck);
    let s11 = mag(rows[0].1[0], rows[0].1[1]);
    assert!(s11 < 0.08, "S11 = {}, pml should absorb the TEM wave", s11);
}

#[test]
fn cavity_resonance() {
    // PEC box 0.1 x 0.05 x 0.1, aperture port in the x = 0 wall. The 101
    // mode resonates at c0 / 2 * sqrt(2) / 0.1 = 2.12 GHz and shows up as a
    // peak of the port input impedance.
    let (a, b, c) = (0.1, 0.05, 0.1);
    let mesh = box_msh(
        [8, 3, 8],
        [a, b, c],
        &move |x, y, z| {
            if x < 1e-12 && (y - b / 2.0).abs() < b / 6.0 && (z - c / 2.0).abs() < c / 8.0 + 1e-12 {
                Some("feed")
            } else {
                Some("pec")
            }
        },
        &|_, _, _| "air",
    );
    let deck = "mesh cav.msh\npec pec\nport 1 feed 0 1 0 50\nsweep lin 1.95e9 2.35e9 29\n";
    let rows = run(&mesh, deck);
    let mut best = (0.0, 0.0);
    for (f, v) in &rows {
        // Z = z0 (1 + S) / (1 - S)
        let (nr, ni, dr, di) = (1.0 + v[0], v[1], 1.0 - v[0], -v[1]);
        let z = 50.0 * mag(nr, ni) / mag(dr, di);
        if z > best.1 {
            best = (*f, z);
        }
    }
    let f101 = C0 / 2.0 * (2.0f64).sqrt() / 0.1;
    assert!((best.0 - f101).abs() < 0.08e9, "resonance at {} GHz, expected {} GHz", best.0 / 1e9, f101 / 1e9);
}

// A conductive filling makes the line lossy through eps - j sigma / w eps0,
// so the propagation constant is k0 sqrt(eps_c) and S21 follows in closed
// form. Checks that conduction current lands in the right frequency slot.
#[test]
fn substrate_conductivity() {
    let lx = 0.12;
    let mesh = line_msh(lx, 12, "pec", Some("p2"), "lossy");
    let (f, sigma, er): (f64, f64, f64) = (1e9, 0.01, 1.0);
    let (w, eps0) = (2.0 * PI * f, 8.8541878128e-12);
    // eps_c = er - j sigma / (w eps0), gamma = j k0 sqrt(eps_c)
    let (re, im) = (er, -sigma / (w * eps0));
    let r = (re * re + im * im).sqrt().sqrt();
    let th = im.atan2(re) / 2.0;
    let (nr, ni) = (r * th.cos(), r * th.sin());
    let k0 = w / C0;
    let expect = (k0 * ni * lx).exp();
    let z0 = ETA0 / nr;
    let deck = format!(
        "mesh sig.msh\nmat lossy eps {} sigma {}\npec pec\nport 1 p1 0 0 1 {}\nport 2 p2 0 0 1 {}\nsweep lin {} {} 1\n",
        er, sigma, z0, z0, f, f
    );
    let v = run(&mesh, &deck)[0].1.clone();
    let got = mag(v[2], v[3]);
    assert!((got - expect).abs() < 0.01, "S21 = {}, analytic {}", got, expect);
    assert!(got < 0.95, "conductivity produced no measurable loss");
}

// Lossy plates instead of PEC: the parallel plate line then attenuates by
// Rs / (eta h) per unit length with Rs the surface resistance. Checks the
// sqrt(k0) slot, which is where the skin effect lives.
#[test]
fn conductor_loss() {
    let (lx, lyz) = (0.12, 0.01);
    let mesh = line_msh(lx, 12, "cu", Some("p2"), "air");
    let (f, sigma): (f64, f64) = (1e9, 1e4);
    let (w, mu0) = (2.0 * PI * f, 4e-7 * PI);
    let rs = (w * mu0 / (2.0 * sigma)).sqrt();
    let expect = (-rs / (ETA0 * lyz) * lx).exp();
    let deck = format!(
        "mesh met.msh\nmetal cu {}\nport 1 p1 0 0 1 {}\nport 2 p2 0 0 1 {}\nsweep lin {} {} 1\n",
        sigma, ETA0, ETA0, f, f
    );
    let v = run(&mesh, &deck)[0].1.clone();
    let got = mag(v[2], v[3]);
    assert!((got - expect).abs() < 0.01, "S21 = {}, analytic {}", got, expect);
    assert!(got < 0.99, "metal loss produced no measurable attenuation");
}

// Puts a deck and a mesh through every stage and returns what is wrong with
// them.
fn refuses(name: &str, msh: &str, text: &str) -> String {
    let deck = match parse_deck(text, read) {
        Ok(d) => d,
        Err(e) => return e.message().to_string(),
    };
    let mesh = match parse_msh(msh, read) {
        Ok(m) => m,
        Err(e) => return e.message().to_string(),
    };
    match simulate(&deck, &mesh) {
        Ok(_) => panic!("{} was accepted", name),
        Err(e) => e.message().to_string(),
    }
}

// Values that are meaningless out of range, and roles put on a group of the
// wrong dimension.
#[test]
fn refuses_bad_decks() {
    let mesh = tem_mesh("p2");
    let m = "mesh valid.msh\n";
    let cases: [(&str, &str, &str); 8] = [
        ("z0neg", "pec pec\nport 1 p1 0 0 1 -50\nsweep lin 1e9 1e9 1\n", "impedance must be positive"),
        ("z0zero", "pec pec\nport 1 p1 0 0 1 0\nsweep lin 1e9 1e9 1\n", "impedance must be positive"),
        ("mur0", "mat air eps 1 mur 0\npec pec\nport 1 p1 0 0 1 50\nsweep lin 1e9 1e9 1\n", "mur must be positive"),
        ("epsneg", "mat air eps -2\npec pec\nport 1 p1 0 0 1 50\nsweep lin 1e9 1e9 1\n", "eps must be positive"),
        ("tandneg", "mat air eps 1 tand -0.1\npec pec\nport 1 p1 0 0 1 50\nsweep lin 1e9 1e9 1\n", "tand must not be negative"),
        ("freq0", "pec pec\nport 1 p1 0 0 1 50\nsweep lin 0 0 1\n", "frequency must be positive"),
        ("pecvol", "pec air\nport 1 p1 0 0 1 50\nsweep lin 1e9 1e9 1\n", "no boundary triangles"),
        ("matsurf", "mat pec eps 2\npec pec\nport 1 p1 0 0 1 50\nsweep lin 1e9 1e9 1\n", "no tetrahedra"),
    ];
    for (name, body, want) in cases {
        let err = refuses(name, &mesh, &format!("{}{}", m, body));
        assert!(err.contains(want), "{}: expected '{}', got '{}'", name, want, err.trim());
    }
}

// Truncated mesh lines must be reported, not indexed past the end.
#[test]
fn refuses_bad_meshes() {
    let head = "$MeshFormat\n2.2 0 8\n$EndMeshFormat\n";
    let cases: [(&str, &str, &str); 4] = [
        ("shortnode", "$Nodes\n1\n1 0 0\n$EndNodes\n", "bad node line"),
        ("shortelem", "$Nodes\n1\n1 0 0 0\n$EndNodes\n$Elements\n1\n1 4\n$EndElements\n", "bad element line"),
        ("fewnodes", "$Nodes\n1\n1 0 0 0\n$EndNodes\n$Elements\n1\n1 4 2 1 1 1 2\n$EndElements\n", "fewer nodes"),
        ("shortphys", "$PhysicalNames\n1\n3\n$EndPhysicalNames\n", "$PhysicalNames entry"),
    ];
    for (name, body, want) in cases {
        let deck = format!("mesh {}.msh\npec pec\nport 1 p1 0 0 1 50\nsweep lin 1e9 1e9 1\n", name);
        let err = refuses(name, &format!("{}{}", head, body), &deck);
        assert!(err.contains(want), "{}: expected '{}', got '{}'", name, want, err.trim());
    }
}

// ---------------------------------------------------------------- ports

// A shorted line read as a coil: Z = j eta0 tan(k0 l), Y = 1 / Z and
// L = Im Z / omega.
#[test]
fn shorted_line_is_a_coil() {
    let mesh = mesh_of(&tem_mesh("pec"));
    let deck = deck_of("mesh m\npec pec\nport 1 p1 0 0 1 50\noutput lq\nsweep lin 2e8 2e8 1\n");
    assert_eq!(deck.output, Output::Lq);
    let system = build(&deck, &mesh).ok().unwrap();
    let f = frequency_at(&deck, 0);
    let k0 = wave_number_at(f);
    let point = system.solve_at(k0).ok().unwrap();
    let z = impedances(&system.ports, &point.columns).ok().unwrap();
    let y = admittances(&system.ports, &point.columns).ok().unwrap();
    let x = ETA0 * (k0.0 * 0.12).tan();
    assert!((z[0][0].im.0 - x).abs() < 0.01 * x, "X = {} expected {}", z[0][0].im.0, x);
    assert!(z[0][0].re.0.abs() < 1e-3 * x);
    assert!((y[0][0].im.0 + 1.0 / x).abs() < 0.01 / x, "B = {}", y[0][0].im.0);
    let coil = coils(&z, f);
    let l = x / (2.0 * PI * 2e8);
    assert!((coil[0].0 .0 - l).abs() < 0.01 * l, "L = {} expected {}", coil[0].0 .0, l);
    assert_eq!(coil[0].1, F(z[0][0].im.0 / z[0][0].re.0));
}

// Impedance and admittance matrices of a two port are inverse to each other,
// also with different reference impedances.
#[test]
fn impedance_times_admittance() {
    let mesh = mesh_of(&tem_mesh("p2"));
    let deck = deck_of("mesh m\npec pec\nport 1 p1 0 0 1 50\nport 2 p2 0 0 1 75\nsweep lin 3e8 3e8 1\n");
    let system = build(&deck, &mesh).ok().unwrap();
    let point = system.solve_at(wave_number_at(F(3e8))).ok().unwrap();
    let z = impedances(&system.ports, &point.columns).ok().unwrap();
    let y = admittances(&system.ports, &point.columns).ok().unwrap();
    for q in 0..2 {
        for p in 0..2 {
            let mut s = Cx { re: F(0.0), im: F(0.0) };
            for j in 0..2 {
                s = s.add(z[j][q].mul(y[p][j]));
            }
            let want = if p == q { 1.0 } else { 0.0 };
            assert!((s.re.0 - want).abs() < 1e-6 && s.im.0.abs() < 1e-6, "{} {}: {:?} {:?}", q, p, s.re, s.im);
        }
    }
}

// S = 1/3 at 50 ohms is 100 ohms, S = 0 the reference itself, and S = 1 has
// no impedance but the admittance zero.
#[test]
fn impedance_of_one_port() {
    let mesh = mesh_of(&tem_mesh("pec"));
    let deck = deck_of("mesh m\npec pec\nport 1 p1 0 0 1 50\nsweep lin 2e8 2e8 1\n");
    let ports = build(&deck, &mesh).ok().unwrap().ports;
    let one = |re: f64| vec![vec![Cx { re: F(re), im: F(0.0) }]];
    let z = impedances(&ports, &one(1.0 / 3.0)).ok().unwrap();
    assert!((z[0][0].re.0 - 100.0).abs() < 1e-9 && z[0][0].im.0 == 0.0);
    assert_eq!(impedances(&ports, &one(0.0)).ok().unwrap()[0][0].re, F(50.0));
    assert_eq!(admittances(&ports, &one(0.0)).ok().unwrap()[0][0].re, F(0.02));
    assert_eq!(impedances(&ports, &one(1.0)).err(), Some(ModelError::Singular));
    assert_eq!(admittances(&ports, &one(1.0)).ok().unwrap()[0][0].re, F(0.0));
    assert_eq!(admittances(&ports, &one(-1.0)).err(), Some(ModelError::Singular));
    let c = coils(&vec![vec![Cx { re: F(2.0), im: F(6.0) }]], F(3.0));
    assert_eq!(c[0], (F(6.0 / (2.0 * PI * 3.0)), F(3.0)));
}

#[test]
fn port_sheet_is_measured() {
    let mesh = mesh_of(&tem_mesh("p2"));
    let deck = deck_of("mesh m\npec pec\nport 1 p1 0 0 2 50\nsweep lin 1e9 1e9 1\n");
    let system = build(&deck, &mesh).ok().unwrap();
    let p = system.ports[0];
    assert!((p.area.0 - 1e-4).abs() < 1e-12 && (p.h.0 - 0.01).abs() < 1e-12 && (p.w.0 - 0.01).abs() < 1e-12);
    assert_eq!(p.z0, F(50.0));
    assert_eq!((p.dir.x, p.dir.y, p.dir.z), (F(0.0), F(0.0), F(1.0)));
    // 26 nodes per plate, of the edges on the plates none is left
    assert_eq!(mesh.nodes.len(), 52);
    assert_eq!(mesh.tets.len(), 72);
    assert_eq!(system.frame.edges.pairs.len(), system.frame.unknowns.len());
    let free = system.frame.unknowns.iter().filter(|d| d.is_some()).count();
    assert_eq!(free, system.frame.n);
    // the driven unknowns are distinct, and their strengths add up to the flux
    // of the direction: a constant field along it has the voltage -h
    let drives = &system.drives[0];
    for (i, a) in drives.iter().enumerate() {
        for b in &drives[i + 1..] {
            assert_ne!(a.0, b.0);
        }
    }
    let mut x = vec![Cx { re: F(0.0), im: F(0.0) }; system.frame.n];
    for (e, ends) in system.frame.edges.pairs.iter().enumerate() {
        if let Some(d) = system.frame.unknowns[e] {
            let rise = mesh.nodes[ends.1].z.0 - mesh.nodes[ends.0].z.0;
            x[system.profile.perm[d]] = Cx { re: F(rise), im: F(0.0) };
        }
    }
    let v = system.voltage_of(0, &x);
    assert!((v.re.0 + 0.01).abs() < 1e-12 && v.im.0 == 0.0, "V = {}", v.re.0);
}

#[test]
fn sweep_frequencies() {
    let deck = deck_of("mesh m\nport 1 p 1 0 0 50\nsweep lin 1e9 3e9 5\n");
    let f: Vec<f64> = (0..5).map(|i| frequency_at(&deck, i).0).collect();
    assert_eq!(f, vec![1e9, 1.5e9, 2e9, 2.5e9, 3e9]);
    let one = deck_of("mesh m\nport 1 p 1 0 0 50\nsweep lin 1e9 3e9 1\n");
    assert_eq!(frequency_at(&one, 0), F(1e9));
    assert_eq!(wave_number_at(F(C0)), F(2.0 * PI));
}

#[test]
fn touchstone_layout() {
    let s = |q: usize, p: usize| Cx { re: F(q as f64), im: F(p as f64) };
    let columns = |n: usize| -> Vec<Vec<Cx<F>>> { (0..n).map(|p| (0..n).map(|q| s(q, p)).collect()).collect() };
    let show = |n: usize| -> Vec<Vec<(f64, f64)>> {
        lay_lines(&columns(n)).iter().map(|l| l.iter().map(|z| (z.re.0, z.im.0)).collect()).collect()
    };
    assert_eq!(show(1), vec![vec![(0.0, 0.0)]]);
    // S11 S21 S12 S22 on one line
    assert_eq!(show(2), vec![vec![(0.0, 0.0), (1.0, 0.0), (0.0, 1.0), (1.0, 1.0)]]);
    // three ports row by row
    assert_eq!(
        show(3),
        vec![
            vec![(0.0, 0.0), (0.0, 1.0), (0.0, 2.0)],
            vec![(1.0, 0.0), (1.0, 1.0), (1.0, 2.0)],
            vec![(2.0, 0.0), (2.0, 1.0), (2.0, 2.0)],
        ]
    );
}

// The direction of a port only tells which way its voltage counts.
#[test]
fn reversed_port() {
    let mesh = line_msh(0.06, 6, "pec", Some("p2"), "air");
    let deck = |z: &str| {
        format!("mesh m\npec pec\nport 1 p1 0 0 1 300\nport 2 p2 0 0 {} 75\nsweep lin 1e9 2e9 2\n", z)
    };
    let (there, back, long) = (run(&mesh, &deck("1")), run(&mesh, &deck("-1")), run(&mesh, &deck("4")));
    for i in 0..2 {
        let (u, v, w) = (&there[i].1, &back[i].1, &long[i].1);
        for k in 0..8 {
            // S21 and S12 stand in the middle
            let sign = if (2..6).contains(&k) { -1.0 } else { 1.0 };
            assert!((v[k] - sign * u[k]).abs() < 1e-12, "{} and {}", v[k], u[k]);
            assert!((w[k] - u[k]).abs() < 1e-12);
        }
        assert!(mag(u[2], u[3]) > 0.1);
    }
}

// Volumes without a card are vacuum, surfaces without a role are natural.
#[test]
fn what_needs_no_card() {
    let lyz = 0.01;
    let lx = 0.06;
    let side = |name: Option<&'static str>| {
        box_msh(
            [6, 1, 1],
            [lx, lyz, lyz],
            &move |x, _y, z| {
                if z < 1e-12 || z > lyz - 1e-12 {
                    Some("pec")
                } else if x < 1e-12 {
                    Some("p1")
                } else if x > lx - 1e-12 {
                    Some("p2")
                } else {
                    name
                }
            },
            &|x, _, _| if x < 0.03 { "air" } else { "sub" },
        )
    };
    let deck = |card: &str| {
        format!("mesh m\n{}mat sub eps 2\npec pec\nport 1 p1 0 0 1 377\nport 2 p2 0 0 1 266\nsweep lin 1e9 1e9 1\n", card)
    };
    let plain = run(&side(None), &deck(""));
    assert_eq!(run(&side(None), &deck("mat air eps 1 tand 0 mur 1\n")), plain);
    assert_eq!(run(&side(Some("side")), &deck("")), plain);
    // the side walls would count as conductors
    let shut = deck("").replace("pec pec", "pec pec side");
    assert!(run(&side(Some("side")), &shut) != plain);
}

// On a matched line the field between the plates is uniform over the cross
// section and has the magnitude of the port field everywhere.
#[test]
fn field_of_a_matched_line() {
    let mesh = mesh_of(&tem_mesh("p2"));
    let deck = deck_of(&format!(
        "mesh m\npec pec\nport 1 p1 0 0 1 {}\nport 2 p2 0 0 1 {}\nsweep lin 1e8 1e8 1\nfield e.vtk 1e8\n",
        ETA0, ETA0
    ));
    let system = build(&deck, &mesh).ok().unwrap();
    let card = deck.field.as_ref().unwrap();
    assert_eq!(card.path.iter().collect::<String>(), "e.vtk");
    let e = system.snapshot(&mesh, wave_number_at(card.f)).ok().unwrap();
    assert_eq!(e.len(), mesh.tets.len());
    let size: Vec<f64> = e.iter().map(|v| v.z.mag().0).collect();
    let (lo, hi) = (size.iter().cloned().fold(f64::MAX, f64::min), size.iter().cloned().fold(0.0, f64::max));
    assert!(lo > 0.0 && hi / lo < 1.02, "{} to {}", lo, hi);
    for v in &e {
        assert!(v.x.mag().0 < 0.05 * lo && v.y.mag().0 < 0.05 * lo);
    }
}

// ---------------------------------------------------------------- decks

fn deck_error(text: &str) -> DeckError {
    match parse_deck(text, read) {
        Ok(_) => panic!("accepted"),
        Err(e) => e,
    }
}

#[test]
fn deck_cards() {
    let d = deck_of(
        "* comment\n\nMESH box.msh\nMat sub EPS 4.4 tand 0.02 mur 1.5 sigma 3\nmat air eps 1\npec top bottom\nPEC side\n\
         abc out\nmetal cu 5.8e7\npml far 1 2 3\nport 1 feed 0 3 4 75\nsweep lin 1e9 2e9 3\noutput z\nfield e.vtk 2e9\n",
    );
    let text = |v: &Vec<char>| -> String { v.iter().collect() };
    assert_eq!(text(d.mesh.as_ref().unwrap()), "box.msh");
    assert_eq!(d.mats.len(), 2);
    assert_eq!(text(&d.mats[0].group), "sub");
    let m = d.mats[0].mat;
    assert_eq!((m.eps, m.tand, m.mur, m.sigma), (F(4.4), F(0.02), F(1.5), F(3.0)));
    let m = d.mats[1].mat;
    assert_eq!((m.eps, m.tand, m.mur, m.sigma), (F(1.0), F(0.0), F(1.0), F(0.0)));
    assert_eq!(d.pec.iter().map(text).collect::<Vec<_>>(), vec!["top", "bottom", "side"]);
    assert_eq!(d.abc.iter().map(text).collect::<Vec<_>>(), vec!["out"]);
    assert_eq!((text(&d.metals[0].group), d.metals[0].sigma), ("cu".to_string(), F(5.8e7)));
    let p = &d.pmls[0];
    assert_eq!((text(&p.group), p.stretch.x, p.stretch.y, p.stretch.z), ("far".to_string(), F(1.0), F(2.0), F(3.0)));
    let p = &d.ports[0];
    assert_eq!((text(&p.group), p.z0), ("feed".to_string(), F(75.0)));
    assert!((p.dir.x.0 - 0.0).abs() < 1e-15 && (p.dir.y.0 - 0.6).abs() < 1e-15 && (p.dir.z.0 - 0.8).abs() < 1e-15);
    assert_eq!((d.f0, d.f1, d.nf), (F(1e9), F(2e9), 3));
    assert_eq!(d.output, Output::Z);
    assert_eq!(d.field.unwrap().f, F(2e9));
    let plain = deck_of("mesh m\nport 1 p 1 0 0 50\nsweep lin 1e9 1e9 1\n");
    assert_eq!(plain.output, Output::S);
    assert!(plain.field.is_none());
    assert_eq!(deck_of("mesh m\nport 1 p 1 0 0 50\nsweep lin 1e9 1e9 1\noutput y\n").output, Output::Y);
}

fn fields(d: &Deck<F>) -> String {
    let text = |v: &Vec<char>| -> String { v.iter().collect() };
    let mats: Vec<_> = d.mats.iter().map(|m| (text(&m.group), m.mat.eps, m.mat.tand, m.mat.mur, m.mat.sigma)).collect();
    let metals: Vec<_> = d.metals.iter().map(|m| (text(&m.group), m.sigma)).collect();
    let pmls: Vec<_> = d.pmls.iter().map(|m| (text(&m.group), m.stretch.x, m.stretch.y, m.stretch.z)).collect();
    let ports: Vec<_> = d.ports.iter().map(|p| (text(&p.group), p.dir.x, p.dir.y, p.dir.z, p.z0)).collect();
    let lists = (d.mesh.as_ref().map(text), d.pec.iter().map(text).collect::<Vec<_>>(), d.abc.iter().map(text).collect::<Vec<_>>());
    let field = d.field.as_ref().map(|c| (text(&c.path), c.f));
    format!("{:?}", (lists, mats, metals, pmls, ports, (d.f0, d.f1, d.nf, d.output), field))
}

#[test]
fn blank_lines_and_comments() {
    let cards = [
        "mesh box.msh", "mat sub eps 4.4 tand 0.02", "pec top bottom", "abc out", "metal cu 5.8e7", "pml far 1 2 3",
        "port 1 feed 0 0 1 75", "sweep lin 1e9 2e9 3", "output z", "field e.vtk 2e9",
    ];
    let plain = fields(&deck_of(&cards.join("\n")));
    assert_eq!(fields(&deck_of(&cards.join("\n\n   \n* port 1 x\n  *mesh other\n*\n"))), plain);
    assert_eq!(fields(&deck_of(&format!("*\n\n{}\n*\n\n", cards.join("\n")))), plain);
    // an error tells its own line
    assert_eq!(deck_error("\n* x\nwire y\n"), DeckError::BadCard { line: 2 });
    assert_eq!(deck_error("wire y\n"), DeckError::BadCard { line: 0 });
}

#[test]
fn length_of_a_port_direction() {
    let deck = |dir: &str| deck_of(&format!("mesh m\nport 1 p {} 50\nsweep lin 1e9 1e9 1\n", dir));
    for dir in ["1 2 -2", "0 0 -3", "0.1 0.2 0.3"] {
        let d = deck(dir).ports[0].dir;
        let len = (d.x.0 * d.x.0 + d.y.0 * d.y.0 + d.z.0 * d.z.0).sqrt();
        assert!((len - 1.0).abs() < 1e-15, "{}", len);
    }
    let (a, b) = (deck("1 2 -2"), deck("2 4 -4"));
    let (a, b) = (a.ports[0].dir, b.ports[0].dir);
    assert_eq!((a.x, a.y, a.z), (b.x, b.y, b.z));
    assert!((a.x.0 - 1.0 / 3.0).abs() < 1e-15 && (a.z.0 + 2.0 / 3.0).abs() < 1e-15);
    assert_eq!(deck_error("port 1 p 0 0 0 50\n"), DeckError::NoDirection);
}

#[test]
fn deck_errors() {
    assert_eq!(deck_error("mesh a b\n"), DeckError::BadCard { line: 0 });
    assert_eq!(deck_error("* ok\nwire x\n"), DeckError::BadCard { line: 1 });
    assert_eq!(deck_error("mat a eps\n"), DeckError::BadCard { line: 0 });
    assert_eq!(deck_error("mat a eps 1 tand\n"), DeckError::BadCard { line: 0 });
    assert_eq!(deck_error("mat a color 1\n"), DeckError::BadCard { line: 0 });
    assert_eq!(deck_error("sweep log 1 2 3\n"), DeckError::BadCard { line: 0 });
    assert_eq!(deck_error("output q\n"), DeckError::BadCard { line: 0 });
    assert_eq!(deck_error("mat a eps x\n"), DeckError::BadNumber { line: 0, word: 3 });
    assert_eq!(deck_error("sweep lin 1 2 x\n"), DeckError::BadNumber { line: 0, word: 4 });
    assert_eq!(deck_error("port 2 p 1 0 0 50\n"), DeckError::PortOrder);
    assert_eq!(deck_error("port 1 p 1 0 0 50\nport 1 p 1 0 0 50\n"), DeckError::PortOrder);
    assert_eq!(deck_error("port 1 p 0 0 0 50\n"), DeckError::NoDirection);
    assert_eq!(deck_error("port 1 p 1 0 0 0\n"), DeckError::Impedance);
    assert_eq!(deck_error("mat a eps 0\n"), DeckError::Eps);
    assert_eq!(deck_error("mat a eps 1 tand -1\n"), DeckError::Tand);
    assert_eq!(deck_error("mat a eps 1 mur -1\n"), DeckError::Mur);
    assert_eq!(deck_error("sweep lin -1 2 2\n"), DeckError::Frequency);
    assert_eq!(deck_error("sweep lin 1 0 2\n"), DeckError::Frequency);
    assert_eq!(deck_error("mesh m\nsweep lin 1 1 1\n"), DeckError::Incomplete);
    assert_eq!(deck_error("mesh m\nport 1 p 1 0 0 50\n"), DeckError::Incomplete);
    assert_eq!(deck_error("port 1 p 1 0 0 50\nsweep lin 1 1 1\n"), DeckError::Incomplete);
    assert_eq!(deck_error("mesh m\nport 1 p 1 0 0 50\nsweep lin 1 1 0\n"), DeckError::Incomplete);
}

// ---------------------------------------------------------------- meshes

fn mesh_error(text: &str) -> MeshError {
    match parse_msh(text, read) {
        Ok(_) => panic!("accepted"),
        Err(e) => e,
    }
}

#[test]
fn mesh_sections() {
    let m = mesh_of(
        "$MeshFormat\n2.2 0 8\n$EndMeshFormat\n$PhysicalNames\n2\n3 7 \"the air\"\n2 7 wall\n$EndPhysicalNames\n\
         $Nodes\n5\n10 0 0 0\n20 1 0 0\n30 0 1 0\n40 0 0 1\n50 1 1 x\n$EndNodes\n$Elements\n6\n\
         1 15 2 1 1 10\n2 4 2 7 1 40 10 30 20\n3 2 2 7 1 30 10 20\n4 2 2 9 1 20 50 10\n5 4 0 50 40 30 20\n6 1 2 1 1 10 20\n$EndElements\n",
    );
    assert_eq!(m.nodes.len(), 5);
    assert_eq!((m.nodes[3].x, m.nodes[3].y, m.nodes[3].z), (F(0.0), F(0.0), F(1.0)));
    assert!(m.nodes[4].z.0.is_nan());
    let names: Vec<String> = m.names.iter().map(|n| n.iter().collect()).collect();
    assert_eq!(names, vec!["the air", "wall", "9", "0"]);
    // corners in ascending order
    assert_eq!(m.tets.len(), 2);
    assert_eq!((m.tets[0].a, m.tets[0].b, m.tets[0].c, m.tets[0].d, m.tets[0].group), (0, 1, 2, 3, 0));
    assert_eq!((m.tets[1].a, m.tets[1].b, m.tets[1].c, m.tets[1].d, m.tets[1].group), (1, 2, 3, 4, 3));
    assert_eq!((m.tris[0].a, m.tris[0].b, m.tris[0].c, m.tris[0].group), (0, 1, 2, 1));
    assert_eq!((m.tris[1].a, m.tris[1].b, m.tris[1].c, m.tris[1].group), (0, 1, 4, 2));
}

// Everything but nodes, triangles, tetrahedra and their groups is passed over.
#[test]
fn unknown_sections_and_elements() {
    let names = "$PhysicalNames\n2\n3 7 air\n2 8 wall\n$EndPhysicalNames\n";
    let nodes = "$Nodes\n5\n1 0 0 0\n2 1 0 0\n3 0 1 0\n4 0 0 1\n5 1 1 1\n$EndNodes\n";
    let (t, u, v) = ("1 2 2 8 1 1 2 3\n", "2 4 2 7 1 1 2 3 4\n", "3 4 2 9 1 2 3 4 5\n");
    let plain = mesh_of(&format!("{}{}$Elements\n3\n{}{}{}$EndElements\n", names, nodes, t, u, v));
    let extra = "$Periodic\n1\n0 1 2\n$EndPeriodic\n\nany words at all\n";
    let others = "11 15 2 1 1 1\n12 1 2 1 1 1 2\n13 5 x\n";
    let busy = mesh_of(&format!(
        "{e}{names}{e}{nodes}{e}$Elements\n9\n{o}{t}{u}{o}{v}$EndElements\n{e}",
        e = extra, o = others, names = names, nodes = nodes, t = t, u = u, v = v
    ));
    let show = |m: &Mesh<F>| {
        let nodes: Vec<_> = m.nodes.iter().map(|p| (p.x, p.y, p.z)).collect();
        let tets: Vec<_> = m.tets.iter().map(|t| (t.a, t.b, t.c, t.d, t.group)).collect();
        let tris: Vec<_> = m.tris.iter().map(|t| (t.a, t.b, t.c, t.group)).collect();
        format!("{:?}", (nodes, tets, tris, &m.names))
    };
    assert_eq!(show(&busy), show(&plain));
    assert_eq!((plain.tets.len(), plain.tris.len(), plain.names.len()), (2, 1, 3));
}

#[test]
fn mesh_errors() {
    let nodes = "$Nodes\n4\n1 0 0 0\n2 1 0 0\n3 0 1 0\n4 0 0 1\n$EndNodes\n";
    assert_eq!(mesh_error("$MeshFormat\n"), MeshError::Ends);
    assert_eq!(mesh_error("$Nodes\n2\n1 0 0 0\n"), MeshError::Ends);
    assert_eq!(mesh_error("$Nodes\nmany\n"), MeshError::BadCount);
    assert_eq!(mesh_error("$MeshFormat\n4.1 0 8\n"), MeshError::Version);
    assert_eq!(mesh_error("$PhysicalNames\n1\n3\n"), MeshError::BadName);
    assert_eq!(mesh_error("$Nodes\n1\n1 0 0\n"), MeshError::BadNode);
    assert_eq!(mesh_error(&format!("{}$Elements\n1\n1 4\n", nodes)), MeshError::BadElement);
    assert_eq!(mesh_error(&format!("{}$Elements\n1\n1 4 1 1 1 2 3\n", nodes)), MeshError::FewNodes);
    assert_eq!(mesh_error(&format!("{}$Elements\n1\n1 4 1 1 1 2 3 5\n", nodes)), MeshError::UnknownNode);
    assert_eq!(mesh_error(&format!("{}$Elements\n1\n1 2 1 1 1 2 3\n", nodes)), MeshError::NoTets);
    assert_eq!(mesh_error(""), MeshError::NoTets);
}
