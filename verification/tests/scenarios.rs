use std::collections::BTreeMap;

use isosurface_simplex::cache::EvaluationCache;
use isosurface_simplex::cells::{
    build_cell_trees, CellCollection, EdgeCellCollection, FaceCellCollection, SignField,
    VolumeCellCollection,
};
use isosurface_simplex::isosurface::extract_mesh;
use isosurface_simplex::mesh::{FaceVert, MeshBuffers};
use isosurface_simplex::partition::PartitionCoord;
use isosurface_simplex::simplex::{CellEntry, SimplexVert};
use isosurface_simplex::subspace::{R3Space, Subspace};
use isosurface_simplex::SolverSettings;
use nalgebra::{DMatrix, DVector};

type Vec3 = [f64; 3];

fn fraction(p: (u64, u64)) -> f64 {
    p.0 as f64 / p.1 as f64
}

fn norm_pos<const N: usize>(coord: &PartitionCoord<N>) -> [f64; N] {
    coord.norm_pos().map(fraction)
}

struct Volume {
    base: Vec3,
    size: Vec3,
}

impl Volume {
    fn real_pos(&self, norm: Vec3) -> Vec3 {
        [0, 1, 2].map(|k| self.base[k] + norm[k] * self.size[k])
    }
}

struct Evaluator<'a> {
    func: &'a dyn Fn(Vec3) -> f64,
    grad: &'a dyn Fn(Vec3) -> Vec3,
    volume: Volume,
    cache: EvaluationCache<f64, Vec3>,
    duals: BTreeMap<SimplexVert, (Vec3, Option<f64>)>,
    evaluations: usize,
}

impl<'a> Evaluator<'a> {
    fn new(func: &'a dyn Fn(Vec3) -> f64, grad: &'a dyn Fn(Vec3) -> Vec3, volume: Volume) -> Self {
        Evaluator {
            func,
            grad,
            volume,
            cache: EvaluationCache::new(),
            duals: BTreeMap::new(),
            evaluations: 0,
        }
    }

    fn eval(&mut self, at: &PartitionCoord<3>) -> f64 {
        let func = self.func;
        let real = self.volume.real_pos(norm_pos(at));
        let count = &mut self.evaluations;
        self.cache.eval(at, || {
            *count += 1;
            func(real)
        })
    }

    fn eval_grad(&mut self, at: &PartitionCoord<3>) -> Vec3 {
        let grad = self.grad;
        let real = self.volume.real_pos(norm_pos(at));
        self.cache.eval_grad(at, || grad(real))
    }

    fn find_dual<const N: usize, S: Subspace<N>>(&mut self, cell: &CellEntry<N, S>) -> Vec3 {
        let mut quadric = DMatrix::<f64>::zeros(N + 1, N + 1);
        for corner in cell.coord.vertex_coords() {
            let corner3 = cell.subspace.unproject_coord(&corner);
            let p = self.volume.real_pos(norm_pos(&corner3));
            let g = self.eval_grad(&corner3);
            let val = self.eval(&corner3);
            let p_s = cell.subspace.project_vec(&p);
            let g_s = cell.subspace.project_vec(&g);
            let d = val - (0..N).map(|k| g_s[k] * p_s[k]).sum::<f64>();
            let mut plane = DVector::<f64>::zeros(N + 1);
            for k in 0..N {
                plane[k] = g_s[k];
            }
            plane[N] = d;
            quadric += &plane * plane.transpose();
        }
        let a = quadric.view((0, 0), (N, N)).into_owned();
        let b = quadric.view((0, N), (N, 1)).into_owned();
        let center3 = norm_pos(&cell.subspace.unproject_coord(&cell.coord));
        let center = norm_pos(&cell.coord);
        let low = norm_pos(&cell.coord.low_parents());
        let high = norm_pos(&cell.coord.high_parents());
        let base = cell.subspace.project_vec(&self.volume.base);
        let size = cell.subspace.project_vec(&self.volume.size);
        let mut dual = center;
        if let Ok(inverse) = a.pseudo_inverse(f64::EPSILON) {
            let real = inverse * (-b);
            let mut norm = center;
            for k in 0..N {
                norm[k] = (real[(k, 0)] - base[k]) / size[k];
            }
            if (0..N).all(|k| low[k] <= norm[k] && norm[k] <= high[k]) {
                dual = norm;
            }
        }
        cell.subspace.unproject_vec(&dual, &center3)
    }

    fn find_all_duals(
        &mut self,
        volume_cells: &VolumeCellCollection,
        face_cells: &FaceCellCollection,
        edge_cells: &EdgeCellCollection,
    ) {
        for cell in volume_cells.entries() {
            let dual = self.find_dual(&cell);
            self.duals.insert(SimplexVert::VolumeDual(cell), (dual, None));
        }
        for cell in face_cells.entries() {
            let dual = self.find_dual(&cell);
            self.duals.insert(SimplexVert::FaceDual(cell), (dual, None));
        }
        for cell in edge_cells.entries() {
            let dual = self.find_dual(&cell);
            self.duals.insert(SimplexVert::EdgeDual(cell), (dual, None));
        }
    }

    fn value(&mut self, vert: &SimplexVert) -> f64 {
        match vert {
            SimplexVert::CellBoundary(coord) => self.eval(coord),
            _ => {
                let (dual, val) = self.duals[vert];
                match val {
                    Some(val) => val,
                    None => {
                        let val = (self.func)(self.volume.real_pos(dual));
                        self.duals.insert(*vert, (dual, Some(val)));
                        val
                    }
                }
            }
        }
    }

    fn pos(&self, vert: &SimplexVert) -> Vec3 {
        match vert {
            SimplexVert::CellBoundary(coord) => self.volume.real_pos(norm_pos(coord)),
            _ => self.volume.real_pos(self.duals[vert].0),
        }
    }

    fn crossing(&mut self, vert: &FaceVert) -> Vec3 {
        let iv = self.value(&vert.i);
        let ov = self.value(&vert.o);
        let t = if ov - iv == 0.0 { 0.0 } else { (-iv / (ov - iv)).clamp(0.0, 1.0) };
        let i = self.pos(&vert.i);
        let o = self.pos(&vert.o);
        [0, 1, 2].map(|k| i[k] * (1.0 - t) + o[k] * t)
    }
}

impl<'a> SignField for Evaluator<'a> {
    fn positive(&mut self, corner: &PartitionCoord<3>) -> bool {
        self.eval(corner) > 0.0
    }

    fn inside(&mut self, vert: &SimplexVert) -> bool {
        self.value(vert) < 0.0
    }
}

fn surface(
    func: &dyn Fn(Vec3) -> f64,
    grad: &dyn Fn(Vec3) -> Vec3,
    volume: Volume,
    settings: &SolverSettings,
) -> (Vec<Vec3>, Vec<usize>) {
    assert!(settings.validate().is_ok());
    let mut evaluator = Evaluator::new(func, grad, volume);
    let (volume_cells, face_cells, edge_cells) =
        build_cell_trees(&mut evaluator, settings.min_octree_depth, settings.max_octree_depth);
    evaluator.find_all_duals(&volume_cells, &face_cells, &edge_cells);
    let MeshBuffers(verts, inds) =
        extract_mesh(&mut evaluator, &volume_cells, &face_cells, &edge_cells);
    let verts = verts.iter().map(|v| evaluator.crossing(v)).collect();
    (verts, inds)
}

fn length(v: Vec3) -> f64 {
    (v[0] * v[0] + v[1] * v[1] + v[2] * v[2]).sqrt()
}

fn sphere_at(center: Vec3, radius: f64) -> impl Fn(Vec3) -> f64 {
    move |p| {
        (p[0] - center[0]).powi(2) + (p[1] - center[1]).powi(2) + (p[2] - center[2]).powi(2)
            - radius * radius
    }
}

fn sphere_grad_at(center: Vec3) -> impl Fn(Vec3) -> Vec3 {
    move |p| [2.0 * (p[0] - center[0]), 2.0 * (p[1] - center[1]), 2.0 * (p[2] - center[2])]
}

fn big_box() -> Volume {
    Volume { base: [-5.0, -5.0, -5.0], size: [10.0, 10.0, 10.0] }
}

fn depths(min: usize, max: usize) -> SolverSettings {
    SolverSettings { min_octree_depth: min, max_octree_depth: max, ..SolverSettings::default() }
}

fn unit_sphere_field() -> (impl Fn(Vec3) -> f64, impl Fn(Vec3) -> Vec3) {
    (sphere_at([0.0, 0.0, 0.0], 3.0), sphere_grad_at([0.0, 0.0, 0.0]))
}

fn check_mesh(verts: &[Vec3], inds: &[usize]) {
    assert_eq!(inds.len() % 3, 0);
    for i in inds {
        assert!(*i < verts.len());
    }
    for v in verts {
        assert!(v.iter().all(|x| x.is_finite()));
    }
}

#[test]
fn sphere_of_depth_five_stays_within_a_hundredth() {
    let (f, g) = unit_sphere_field();
    let (verts, inds) = surface(&f, &g, big_box(), &depths(3, 5));
    check_mesh(&verts, &inds);
    assert_eq!(verts.len(), 23642);
    assert_eq!(inds.len(), 141840);
    for vert in verts {
        let len = length(vert);
        assert!(
            len > 2.99 && len < 3.01,
            "A mesh vertex was placed too far from the sphere's surface ({}).",
            len - 3.0,
        )
    }
}

#[test]
fn sphere_with_default_settings_stays_near_the_surface() {
    let (f, g) = unit_sphere_field();
    let (verts, inds) = surface(&f, &g, big_box(), &SolverSettings::default());
    check_mesh(&verts, &inds);
    assert!(!verts.is_empty());
    for vert in verts {
        let len = length(vert);
        assert!(len > 2.98 && len < 3.02, "vertex at distance {}", len);
    }
}

#[test]
fn constant_field_gives_empty_buffers() {
    let f = |_: Vec3| 1.0;
    let g = |_: Vec3| [0.0, 0.0, 0.0];
    let (verts, inds) = surface(&f, &g, big_box(), &SolverSettings::default());
    assert!(verts.is_empty());
    assert!(inds.is_empty());
}

#[test]
fn union_of_two_spheres_stays_near_both() {
    let a = sphere_at([1.0, 1.0, 2.0], 2.0);
    let b = sphere_at([3.0, 1.0, 2.0], 1.0);
    let ga = sphere_grad_at([1.0, 1.0, 2.0]);
    let gb = sphere_grad_at([3.0, 1.0, 2.0]);
    let f = |p: Vec3| a(p).min(b(p));
    let g = |p: Vec3| if a(p) > b(p) { gb(p) } else { ga(p) };
    let (verts, inds) = surface(&f, &g, big_box(), &depths(4, 5));
    check_mesh(&verts, &inds);
    let mut near_first = 0;
    let mut near_second = 0;
    for v in &verts {
        let da = (length([v[0] - 1.0, v[1] - 1.0, v[2] - 2.0]) - 2.0).abs();
        let db = (length([v[0] - 3.0, v[1] - 1.0, v[2] - 2.0]) - 1.0).abs();
        assert!(da.min(db) < 0.05, "vertex {:?} is {} from the nearer sphere", v, da.min(db));
        if da < db {
            near_first += 1;
        } else {
            near_second += 1;
        }
    }
    assert!(near_first > 0 && near_second > 0);
}

#[test]
fn plane_through_the_middle_keeps_vertices_on_it() {
    let f = |p: Vec3| p[2];
    let g = |_: Vec3| [0.0, 0.0, 1.0];
    let small = Volume { base: [-1.0, -1.0, -1.0], size: [2.0, 2.0, 2.0] };
    let (verts, inds) = surface(&f, &g, small, &SolverSettings::default());
    check_mesh(&verts, &inds);
    for v in verts {
        assert!(v[2].abs() < 1e-6);
    }
}

#[test]
fn plane_off_the_grid_keeps_vertices_on_it() {
    let f = |p: Vec3| p[2] - 0.1;
    let g = |_: Vec3| [0.0, 0.0, 1.0];
    let small = Volume { base: [-1.0, -1.0, -1.0], size: [2.0, 2.0, 2.0] };
    let (verts, inds) = surface(&f, &g, small, &SolverSettings::default());
    check_mesh(&verts, &inds);
    assert!(!verts.is_empty());
    for v in verts {
        assert!((v[2] - 0.1).abs() < 1e-6);
        assert!(v[0].abs() <= 1.0 && v[1].abs() <= 1.0);
    }
}

#[test]
fn same_input_gives_the_same_buffers() {
    let (f, g) = unit_sphere_field();
    let (verts, inds) = surface(&f, &g, big_box(), &SolverSettings::default());
    let (verts_again, inds_again) = surface(&f, &g, big_box(), &SolverSettings::default());
    assert_eq!(inds, inds_again);
    assert_eq!(verts.len(), verts_again.len());
    for (a, b) in verts.iter().zip(verts_again.iter()) {
        for k in 0..3 {
            assert_eq!(a[k].to_bits(), b[k].to_bits());
        }
    }
}

fn check_duals<const N: usize, S: Subspace<N>>(
    evaluator: &mut Evaluator,
    cells: &CellCollection<N, S>,
) -> usize {
    let mut moved = 0;
    for cell in cells.entries() {
        let dual = evaluator.find_dual(&cell);
        let center = norm_pos(&cell.subspace.unproject_coord(&cell.coord));
        let low = norm_pos(&cell.subspace.unproject_coord(&cell.coord.low_parents()));
        let high = norm_pos(&cell.subspace.unproject_coord(&cell.coord.high_parents()));
        for k in 0..3 {
            assert!(low[k] <= dual[k] && dual[k] <= high[k]);
        }
        if dual != center {
            moved += 1;
        }
    }
    moved
}

#[test]
fn dual_vertices_lie_in_their_cells() {
    let (f, g) = unit_sphere_field();
    let mut evaluator = Evaluator::new(&f, &g, big_box());
    let (volume_cells, face_cells, edge_cells) = build_cell_trees(&mut evaluator, 3, 4);
    assert!(check_duals(&mut evaluator, &volume_cells) > 0);
    check_duals(&mut evaluator, &face_cells);
    check_duals(&mut evaluator, &edge_cells);
    let whole = CellEntry { subspace: R3Space(), coord: PartitionCoord::<3>::default() };
    let flat = |_: Vec3| 1.0;
    let none = |_: Vec3| [0.0, 0.0, 0.0];
    let mut still = Evaluator::new(&flat, &none, big_box());
    assert_eq!(still.find_dual(&whole), [0.5, 0.5, 0.5]);
}

#[test]
fn each_corner_is_evaluated_once() {
    let (f, g) = unit_sphere_field();
    let mut evaluator = Evaluator::new(&f, &g, big_box());
    let (volume_cells, face_cells, edge_cells) = build_cell_trees(&mut evaluator, 3, 4);
    let after_build = evaluator.evaluations;
    assert_eq!(after_build, evaluator.cache.func_vals.len());
    assert!(after_build >= 9 * 9 * 9 && after_build < 17 * 17 * 17);
    evaluator.find_all_duals(&volume_cells, &face_cells, &edge_cells);
    extract_mesh(&mut evaluator, &volume_cells, &face_cells, &edge_cells);
    assert_eq!(evaluator.evaluations, evaluator.cache.func_vals.len());
    assert_eq!(evaluator.evaluations, after_build);
}

#[test]
fn crossing_without_a_change_of_value_stays_at_the_inner_end() {
    let f = |_: Vec3| 0.0;
    let g = |_: Vec3| [0.0, 0.0, 0.0];
    let mut evaluator = Evaluator::new(&f, &g, big_box());
    let inner = PartitionCoord::<3>::default().child_coord(0);
    let outer = PartitionCoord::<3>::default().child_coord(7);
    let vert =
        FaceVert { i: SimplexVert::CellBoundary(inner), o: SimplexVert::CellBoundary(outer) };
    assert_eq!(evaluator.crossing(&vert), [-2.5, -2.5, -2.5]);
    let slope = |p: Vec3| p[0] - 1.0;
    let mut sloped = Evaluator::new(&slope, &g, big_box());
    for x in sloped.crossing(&vert) {
        assert!((x - 1.0).abs() < 1e-12);
    }
}
