//! Why the rays of a frame miss nothing of a sphere.
//!
//! Rays are only cast inside a circle around the projected centre of each
//! sphere. What a sphere off to one side projects to is no circle, and its far
//! rim reaches out farthest. A circle that takes in the far rim takes in the
//! whole sphere, and with a pixel of margin the runs of pixels that it covers
//! hold every pixel in which a point of the sphere is seen.

use crate::binary32::one;
use crate::camera::{column, column_under, row, row_under, seen_at, Camera};
use crate::enclosure::off;
use crate::reach::dot;
use crate::screen::SCREEN_WIDTH;
use crate::spans::{covered, law_span_touches_columns, span_of, spans_of, Crossing, Span};
use vstd::arithmetic::power2::lemma_pow2_pos;
use vstd::prelude::*;

verus! {

/// Whether a slope of `over` out of `under`, measured from the projected centre
/// of a sphere, takes in its far rim. The centre lies at the depth `z` and `side`
/// off the axis. At the far rim the two sides are equal.
pub open spec fn takes_in_rim(z: int, side: int, radius: int, over: int, under: int) -> bool {
    let e = z * under;
    let g = side * under + over * z;
    (radius * radius) * (e * e + g * g) <= ((over * z) * (over * z)) * (z * z)
}

/// The far rim of a sphere lies at the slope of `r * (r * side + z * tangent)` out
/// of `z * (z * z - r * r)` from its projected centre, where `r` is the radius and
/// `tangent` the length of the tangent from the eye to the sphere.
pub proof fn law_far_rim(z: int, side: int, radius: int, tangent: int)
    requires
        0 <= radius < z,
        0 <= side,
        0 <= tangent,
        side * side + z * z - radius * radius <= tangent * tangent,
    ensures
        takes_in_rim(
            z,
            side,
            radius,
            radius * (radius * side + z * tangent),
            z * (z * z - radius * radius),
        ),
        z * (z * z - radius * radius) > 0,
        radius * (radius * side + z * tangent) >= 0,
{
    let (r, s, w): (int, int, int) = (radius, side, tangent);
    let (zz, rr, ss, ww): (int, int, int, int) = (z * z, r * r, s * s, w * w);
    let k: int = zz - rr;
    let (sz, rw, rs, zw): (int, int, int, int) = (s * z, r * w, r * s, z * w);
    let (over, under): (int, int) = (r * (rs + zw), z * k);
    assert(k > 0) by (nonlinear_arith)
        requires
            0 <= r < z,
            k == z * z - r * r,
    ;
    assert(under > 0) by (nonlinear_arith)
        requires
            k > 0,
            z > 0,
            under == z * k,
    ;
    assert(rs >= 0 && zw >= 0) by (nonlinear_arith)
        requires
            r >= 0,
            s >= 0,
            z > 0,
            w >= 0,
            rs == r * s,
            zw == z * w,
    ;
    assert(over >= 0) by (nonlinear_arith)
        requires
            r >= 0,
            rs + zw >= 0,
            over == r * (rs + zw),
    ;
    // Both directions of the rim, over the squared depth.
    let e: int = z * under;
    let g: int = s * under + over * z;
    assert(e == zz * k) by (nonlinear_arith)
        requires
            e == z * (z * k),
            zz == z * z,
    ;
    assert(s * (z * k) == sz * zz - sz * rr) by (nonlinear_arith)
        requires
            sz == s * z,
            k == zz - rr,
    ;
    assert((r * (rs + zw)) * z == (r * rs) * z + (r * zw) * z) by (nonlinear_arith);
    assert((r * (r * s)) * z == (s * z) * (r * r)) by (nonlinear_arith);
    assert((r * (z * w)) * z == (z * z) * (r * w)) by (nonlinear_arith);
    assert(g == zz * (sz + rw)) by (nonlinear_arith)
        requires
            g == sz * zz + zz * rw,
    ;
    let f: int = rs + zw;
    // The difference of the two squares is a product.
    lemma_square_sum(sz, rw);
    lemma_square_sum(rs, zw);
    assert((r * s) * (z * w) == (s * z) * (r * w)) by (nonlinear_arith);
    assert((r * s) * (r * s) == (r * r) * (s * s)) by (nonlinear_arith);
    assert((z * w) * (z * w) == (z * z) * (w * w)) by (nonlinear_arith);
    assert((s * z) * (s * z) == (s * s) * (z * z)) by (nonlinear_arith);
    assert((r * w) * (r * w) == (r * r) * (w * w)) by (nonlinear_arith);
    assert(rr * ss + zz * ww - ss * zz - rr * ww == (zz - rr) * (ww - ss)) by (nonlinear_arith);
    assert(k * (ww - ss) >= k * k) by (nonlinear_arith)
        requires
            k > 0,
            ww - ss >= k,
    ;
    let (a, b): (int, int) = (sz + rw, k * k);
    assert(b + a * a <= f * f);
    assert(e * e == (zz * zz) * b) by (nonlinear_arith)
        requires
            e == zz * k,
            b == k * k,
    ;
    assert(g * g == (zz * zz) * (a * a)) by (nonlinear_arith)
        requires
            g == zz * a,
    ;
    let z4: int = zz * zz;
    let aa: int = a * a;
    assert(z4 * b + z4 * aa == z4 * (b + aa)) by (nonlinear_arith);
    assert(rr * z4 >= 0) by (nonlinear_arith)
        requires
            rr == r * r,
            z4 == zz * zz,
    ;
    let c: int = rr * z4;
    let ff: int = f * f;
    assert(c * (b + aa) <= c * ff) by (nonlinear_arith)
        requires
            c >= 0,
            b + aa <= ff,
    ;
    assert(rr * (z4 * (b + aa)) == c * (b + aa)) by (nonlinear_arith)
        requires
            c == rr * z4,
    ;
    assert(((r * f) * z) * ((r * f) * z) == (rr * ff) * zz) by (nonlinear_arith)
        requires
            rr == r * r,
            ff == f * f,
            zz == z * z,
    ;
    assert(((rr * ff) * zz) * zz == c * ff) by (nonlinear_arith)
        requires
            c == rr * z4,
            z4 == zz * zz,
    ;
}

/// The square of a sum.
proof fn lemma_square_sum(x: int, y: int)
    ensures
        (x + y) * (x + y) == x * x + 2 * (x * y) + y * y,
{
    assert((x + y) * (x + y) == x * x + 2 * (x * y) + y * y) by (nonlinear_arith);
}

/// The squared length of the way between two projections, as far as depth goes:
/// `n` and `t` are the squared lengths of the two ways off the axis and `nt`
/// their dot product.
proof fn lemma_way_squared(
    xc: int,
    yc: int,
    z: int,
    xo: int,
    yo: int,
    m: int,
    n: int,
    nt: int,
    t: int,
)
    requires
        n == xo * xo + yo * yo,
        nt == xo * xc + yo * yc,
        t == xc * xc + yc * yc,
    ensures
        (xo * z - xc * m) * (xo * z - xc * m) + (yo * z - yc * m) * (yo * z - yc * m) == (z * z) * n
            - 2 * ((z * m) * nt) + (m * m) * t,
{
    lemma_difference_squared(xo, z, xc, m);
    lemma_difference_squared(yo, z, yc, m);
    let (zz, zm, mm): (int, int, int) = (z * z, z * m, m * m);
    assert(zz * (xo * xo + yo * yo) == zz * (xo * xo) + zz * (yo * yo)) by (nonlinear_arith);
    assert(zm * (xo * xc + yo * yc) == zm * (xo * xc) + zm * (yo * yc)) by (nonlinear_arith);
    assert(mm * (xc * xc + yc * yc) == mm * (xc * xc) + mm * (yc * yc)) by (nonlinear_arith);
}

/// The square of a difference of products.
proof fn lemma_difference_squared(x: int, z: int, c: int, m: int)
    ensures
        (x * z - c * m) * (x * z - c * m) == (z * z) * (x * x) - 2 * ((z * m) * (x * c)) + (m * m)
            * (c * c),
{
    let (a, b): (int, int) = (x * z, c * m);
    assert((a - b) * (a - b) == a * a - 2 * (a * b) + b * b) by (nonlinear_arith);
    assert((x * z) * (x * z) == (z * z) * (x * x)) by (nonlinear_arith);
    assert((x * z) * (c * m) == (z * m) * (x * c)) by (nonlinear_arith);
    assert((c * m) * (c * m) == (m * m) * (c * c)) by (nonlinear_arith);
}

/// Trading the two ways off the axis for each other, at the rate at which they
/// count at the far rim.
proof fn lemma_trade(
    xc: int,
    yc: int,
    z: int,
    xo: int,
    yo: int,
    m: int,
    e2: int,
    g: int,
    q: int,
    h: int,
    n: int,
)
    requires
        e2 >= 0 && g >= 0 && q >= 0,
        n == xo * xo + yo * yo,
        e2 * (xc * xc + yc * yc) <= (q * q) * (z * z),
        q == 0 ==> xc == 0 && yc == 0,
        h == (xo * z - xc * m) * (xo * z - xc * m) + (yo * z - yc * m) * (yo * z - yc * m),
    ensures
        (g * e2) * h <= (e2 + g * q) * ((z * z) * (g * n + q * (m * m))),
{
    let (zz, mm): (int, int) = (z * z, m * m);
    let (nt, t): (int, int) = (xo * xc + yo * yc, xc * xc + yc * yc);
    lemma_way_squared(xc, yc, z, xo, yo, m, n, nt, t);
    let (a, b, c): (int, int, int) = (zz * n, (z * m) * nt, mm * t);
    assert(h == a - 2 * b + c);
    let k: int = g * q;
    if q == 0 {
        assert(xo * 0 == 0 && yo * 0 == 0);
        assert(nt == 0 && t == 0);
        assert(b == 0) by (nonlinear_arith)
            requires
                nt == 0,
                b == (z * m) * nt,
        ;
        assert(c == 0) by (nonlinear_arith)
            requires
                t == 0,
                c == mm * t,
        ;
        assert(k == 0) by (nonlinear_arith)
            requires
                q == 0,
                k == g * q,
        ;
        assert(q * mm == 0) by (nonlinear_arith)
            requires
                q == 0,
        ;
        assert((g * e2) * (zz * n) == e2 * (zz * (g * n))) by (nonlinear_arith);
    } else {
        // The square that makes the trade.
        let (vx, vy): (int, int) = (k * (z * xo) + e2 * (m * xc), k * (z * yo) + e2 * (m * yc));
        assert(vx * vx >= 0) by (nonlinear_arith);
        assert(vy * vy >= 0) by (nonlinear_arith);
        lemma_trade_square(k, z, xo, e2, m, xc);
        lemma_trade_square(k, z, yo, e2, m, yc);
        let (kk, ke, ee): (int, int, int) = (k * k, k * e2, e2 * e2);
        lemma_times_two(kk * zz, xo * xo, yo * yo);
        lemma_times_two(ke * (z * m), xo * xc, yo * yc);
        lemma_times_two(ee * mm, xc * xc, yc * yc);
        assert((kk * zz) * n == kk * a) by (nonlinear_arith)
            requires
                a == zz * n,
        ;
        assert((ke * (z * m)) * nt == ke * b) by (nonlinear_arith)
            requires
                b == (z * m) * nt,
        ;
        assert((ee * mm) * t == ee * c) by (nonlinear_arith)
            requires
                c == mm * t,
        ;
        assert(kk * a + 2 * (ke * b) + ee * c >= 0);
        assert(ke * h == ke * a - 2 * (ke * b) + ke * c) by (nonlinear_arith)
            requires
                h == a - 2 * b + c,
        ;
        let w: int = q * q * zz * mm;
        let (ka, ec): (int, int) = (k * a, e2 * c);
        assert((e2 + k) * (ka + ec) == e2 * ka + e2 * ec + k * ka + k * ec) by (nonlinear_arith);
        assert(e2 * (k * a) == (k * e2) * a) by (nonlinear_arith);
        assert(e2 * (e2 * c) == (e2 * e2) * c) by (nonlinear_arith);
        assert(k * (k * a) == (k * k) * a) by (nonlinear_arith);
        assert(k * (e2 * c) == (k * e2) * c) by (nonlinear_arith);
        let (et, most): (int, int) = (e2 * t, (q * q) * zz);
        assert(mm >= 0) by (nonlinear_arith)
            requires
                mm == m * m,
        ;
        assert(mm * et <= mm * most) by (nonlinear_arith)
            requires
                et <= most,
                mm >= 0,
        ;
        assert(e2 * (mm * t) == mm * (e2 * t)) by (nonlinear_arith);
        assert(mm * ((q * q) * zz) == q * q * zz * mm) by (nonlinear_arith);
        assert(k >= 0) by (nonlinear_arith)
            requires
                g >= 0,
                q >= 0,
                k == g * q,
        ;
        let (x, y): (int, int) = (k * a + e2 * c, k * a + w);
        assert((e2 + k) * x <= (e2 + k) * y) by (nonlinear_arith)
            requires
                e2 + k >= 0,
                x <= y,
        ;
        assert(ke * h <= (e2 + k) * y);
        // All of it is a multiple of q.
        let p: int = zz * (g * n + q * mm);
        let (gn, qm): (int, int) = (g * n, q * mm);
        assert(q * (zz * (gn + qm)) == q * (zz * gn) + q * (zz * qm)) by (nonlinear_arith);
        assert((g * q) * (zz * n) == q * (zz * (g * n))) by (nonlinear_arith);
        assert(q * q * zz * mm == q * (zz * (q * mm))) by (nonlinear_arith);
        assert(y == q * p);
        assert(((g * q) * e2) * h == q * ((g * e2) * h)) by (nonlinear_arith);
        let (u, v): (int, int) = ((g * e2) * h, (e2 + k) * p);
        assert((e2 + k) * (q * p) == q * ((e2 + k) * p)) by (nonlinear_arith);
        assert(u <= v) by (nonlinear_arith)
            requires
                q * u <= q * v,
                q > 0,
        ;
    }
}

/// One axis of the square that makes the trade.
proof fn lemma_trade_square(k: int, z: int, x: int, e2: int, m: int, c: int)
    ensures
        (k * (z * x) + e2 * (m * c)) * (k * (z * x) + e2 * (m * c)) == ((k * k) * (z * z)) * (x * x)
            + 2 * (((k * e2) * (z * m)) * (x * c)) + ((e2 * e2) * (m * m)) * (c * c),
{
    let (a, b): (int, int) = (k * (z * x), e2 * (m * c));
    lemma_square_sum(a, b);
    let (kz, em): (int, int) = (k * z, e2 * m);
    assert(k * (z * x) == kz * x) by (nonlinear_arith)
        requires
            kz == k * z,
    ;
    assert(e2 * (m * c) == em * c) by (nonlinear_arith)
        requires
            em == e2 * m,
    ;
    assert((kz * x) * (kz * x) == (kz * kz) * (x * x)) by (nonlinear_arith);
    assert((em * c) * (em * c) == (em * em) * (c * c)) by (nonlinear_arith);
    assert((kz * x) * (em * c) == (kz * em) * (x * c)) by (nonlinear_arith);
    assert((k * z) * (k * z) == (k * k) * (z * z)) by (nonlinear_arith);
    assert((e2 * m) * (e2 * m) == (e2 * e2) * (m * m)) by (nonlinear_arith);
    assert((k * z) * (e2 * m) == (k * e2) * (z * m)) by (nonlinear_arith);
}

/// A product with a sum of two.
proof fn lemma_times_two(k: int, x: int, y: int)
    ensures
        k * (x + y) == k * x + k * y,
{
    assert(k * (x + y) == k * x + k * y) by (nonlinear_arith);
}

/// What is left over at a place that is not on the far rim is a square.
proof fn lemma_rest_is_square(e2: int, g: int, p: int, q: int, z: int, m: int)
    requires
        g == p + q,
        p >= 0,
    ensures
        ({
            let s2 = e2 + g * g;
            (e2 + g * q) * ((g * (p * p)) * (z * z) - (p * s2) * (m * m)) <= (g * s2) * ((p * p) * ((
            z + m) * (z + m)))
        }),
{
    let s2: int = e2 + g * g;
    let (pp, zz, mm, zm): (int, int, int, int) = (p * p, z * z, m * m, z * m);
    let (gp, l): (int, int) = (g * p, e2 + g * q);
    lemma_square_sum(z, m);
    assert(g * q == g * g - gp) by (nonlinear_arith)
        requires
            g == p + q,
            gp == g * p,
    ;
    assert(l == s2 - gp);
    let root: int = gp * z + s2 * m;
    assert(root * root >= 0) by (nonlinear_arith);
    lemma_square_sum(gp * z, s2 * m);
    assert((gp * z) * (gp * z) == (gp * gp) * zz) by (nonlinear_arith)
        requires
            zz == z * z,
    ;
    assert((gp * z) * (s2 * m) == (gp * s2) * zm) by (nonlinear_arith)
        requires
            zm == z * m,
    ;
    assert((s2 * m) * (s2 * m) == (s2 * s2) * mm) by (nonlinear_arith)
        requires
            mm == m * m,
    ;
    // Both sides are p times something.
    let left: int = (gp * zz) * l - (s2 * mm) * l;
    let right: int = (s2 * gp) * (zz + 2 * zm + mm);
    let (c, d): (int, int) = (gp * zz, s2 * mm);
    assert((g * (p * p)) * zz == p * ((g * p) * zz)) by (nonlinear_arith);
    assert((p * s2) * mm == p * (s2 * mm)) by (nonlinear_arith);
    assert(l * (p * c - p * d) == p * (c * l - d * l)) by (nonlinear_arith);
    let sum: int = zz + 2 * zm + mm;
    assert((g * s2) * ((p * p) * sum) == p * ((s2 * (g * p)) * sum)) by (nonlinear_arith);
    assert((gp * zz) * (s2 - gp) == (gp * s2) * zz - (gp * gp) * zz) by (nonlinear_arith);
    assert((s2 * mm) * (s2 - gp) == (s2 * s2) * mm - (gp * s2) * mm) by (nonlinear_arith);
    assert((s2 * gp) * (zz + 2 * zm + mm) == (gp * s2) * zz + 2 * ((gp * s2) * zm) + (gp * s2) * mm)
        by (nonlinear_arith);
    assert(right - left == root * root);
    assert(p * left <= p * right) by (nonlinear_arith)
        requires
            p >= 0,
            left <= right,
    ;
}

/// A circle around the projected centre of a sphere that takes in the far rim
/// takes in the whole sphere. Places are in the camera's own directions: the
/// centre lies at `xc`, `yc` and the depth `z`, and the point `xo`, `yo` and `m`
/// off it. The slopes of the two differ by no more than `over` out of `under`.
pub proof fn law_rim_circle_takes_in_sphere(
    xc: int,
    yc: int,
    z: int,
    side: int,
    radius: int,
    xo: int,
    yo: int,
    m: int,
    over: int,
    under: int,
)
    requires
        z > 0,
        side >= 0,
        xc * xc + yc * yc <= side * side,
        xo * xo + yo * yo + m * m <= radius * radius,
        over >= 0,
        under > 0,
        takes_in_rim(z, side, radius, over, under),
    ensures
        ({
            let (ux, uy) = (xo * z - xc * m, yo * z - yc * m);
            (under * under) * (ux * ux + uy * uy) <= (over * (z * (z + m))) * (over * (z * (z + m)))
        }),
{
    let (ux, uy): (int, int) = (xo * z - xc * m, yo * z - yc * m);
    let (h, n, mm, zz): (int, int, int, int) = (
        ux * ux + uy * uy,
        xo * xo + yo * yo,
        m * m,
        z * z,
    );
    let (e, p, q): (int, int, int) = (z * under, over * z, side * under);
    let g: int = q + p;
    let (e2, rr): (int, int) = (e * e, radius * radius);
    let s2: int = e2 + g * g;
    assert(z * under > 0) by (nonlinear_arith)
        requires
            z > 0,
            under > 0,
    ;
    assert(over * z >= 0) by (nonlinear_arith)
        requires
            z > 0,
            over >= 0,
    ;
    assert(side * under >= 0) by (nonlinear_arith)
        requires
            under > 0,
            side >= 0,
    ;
    assert(e * e > 0) by (nonlinear_arith)
        requires
            e > 0,
    ;
    assert(z * z > 0) by (nonlinear_arith)
        requires
            z > 0,
    ;
    assert(g * g >= 0) by (nonlinear_arith);
    let tt: int = xc * xc + yc * yc;
    assert((z * under) * (z * under) == (z * z) * (under * under)) by (nonlinear_arith);
    assert((side * under) * (side * under) == (side * side) * (under * under)) by (nonlinear_arith);
    let (u2, s4): (int, int) = (under * under, side * side);
    assert((zz * u2) * s4 == (s4 * u2) * zz) by (nonlinear_arith);
    let sd: int = side * side;
    assert(e2 * tt <= e2 * sd) by (nonlinear_arith)
        requires
            e2 > 0,
            tt <= sd,
    ;
    if q == 0 {
        assert(side == 0) by (nonlinear_arith)
            requires
                side * under == 0,
                under > 0,
        ;
        assert(xc == 0 && yc == 0) by (nonlinear_arith)
            requires
                xc * xc + yc * yc <= 0,
        ;
    }
    lemma_trade(xc, yc, z, xo, yo, m, e2, g, q, h, n);
    let zq: int = z + m;
    let (pp, qq): (int, int) = (p * p, zq * zq);
    assert(e2 * h <= zz * (pp * qq)) by {
        if g == 0 {
            assert(p == 0 && q == 0);
            assert(rr * (e2 + g * g) <= 0) by (nonlinear_arith)
                requires
                    rr * (e2 + g * g) <= (p * p) * zz,
                    p == 0,
            ;
            assert(rr <= 0) by (nonlinear_arith)
                requires
                    rr * (e2 + g * g) <= 0,
                    e2 + g * g > 0,
            ;
            assert(xo == 0 && yo == 0 && m == 0) by (nonlinear_arith)
                requires
                    xo * xo + yo * yo + m * m <= 0,
            ;
            assert(h == 0);
            assert(e2 * 0 == 0);
            assert(zz * (pp * qq) >= 0) by (nonlinear_arith)
                requires
                    zz > 0,
                    pp == p * p,
                    qq == zq * zq,
            ;
        } else {
            // Nothing in the sphere counts for more than what is on it.
            let most: int = g * rr - p * mm;
            let rest: int = rr - mm;
            assert(g * n <= g * rest) by (nonlinear_arith)
                requires
                    n <= rest,
                    g >= 0,
            ;
            assert(g * (rr - mm) == g * rr - g * mm) by (nonlinear_arith);
            assert((q + p) * mm == q * mm + p * mm) by (nonlinear_arith);
            let l: int = e2 + g * q;
            assert(l >= 0) by (nonlinear_arith)
                requires
                    e2 > 0,
                    g >= 0,
                    q >= 0,
                    l == e2 + g * q,
            ;
            let some: int = g * n + q * mm;
            assert(l * (zz * some) <= l * (zz * most)) by (nonlinear_arith)
                requires
                    l >= 0,
                    zz > 0,
                    some <= most,
            ;
            // Over the sum of the squares, the radius is what the circle allows.
            let bound: int = (g * pp) * zz - (p * s2) * mm;
            let (rs, pz): (int, int) = (rr * s2, pp * zz);
            assert(g * rs <= g * pz) by (nonlinear_arith)
                requires
                    rs <= pz,
                    g >= 0,
            ;
            assert(s2 * (g * rr - p * mm) == g * (rr * s2) - (p * s2) * mm) by (nonlinear_arith);
            assert(g * (pp * zz) == (g * pp) * zz) by (nonlinear_arith);
            assert(s2 * most <= bound);
            lemma_rest_is_square(e2, g, p, q, z, m);
            let goal: int = (g * s2) * (pp * qq);
            assert(l * bound <= goal);
            assert(l * (s2 * most) <= l * bound) by (nonlinear_arith)
                requires
                    l >= 0,
                    s2 * most <= bound,
            ;
            let first: int = (g * e2) * h;
            assert(first <= l * (zz * most));
            assert(s2 * first <= s2 * (l * (zz * most))) by (nonlinear_arith)
                requires
                    s2 > 0,
                    first <= l * (zz * most),
            ;
            assert(s2 * (l * (zz * most)) == zz * (l * (s2 * most))) by (nonlinear_arith);
            let x: int = l * (s2 * most);
            assert(zz * x <= zz * goal) by (nonlinear_arith)
                requires
                    zz > 0,
                    x <= goal,
            ;
            let gs: int = g * s2;
            assert(gs > 0) by (nonlinear_arith)
                requires
                    g > 0,
                    s2 > 0,
                    gs == g * s2,
            ;
            assert(s2 * ((g * e2) * h) == gs * (e2 * h)) by (nonlinear_arith)
                requires
                    gs == g * s2,
            ;
            assert(zz * (gs * (pp * qq)) == gs * (zz * (pp * qq))) by (nonlinear_arith);
            let (a, b): (int, int) = (e2 * h, zz * (pp * qq));
            assert(a <= b) by (nonlinear_arith)
                requires
                    gs * a <= gs * b,
                    gs > 0,
            ;
        }
    }
    // The common factor of both sides.
    let uu: int = under * under;
    let goal: int = (over * (z * zq)) * (over * (z * zq));
    assert((zz * uu) * h == zz * (uu * h)) by (nonlinear_arith);
    assert(over * (z * zq) == p * zq) by (nonlinear_arith)
        requires
            p == over * z,
    ;
    assert((p * zq) * (p * zq) == (p * p) * (zq * zq)) by (nonlinear_arith);
    let a: int = uu * h;
    assert(a <= goal) by (nonlinear_arith)
        requires
            zz * a <= zz * goal,
            zz > 0,
    ;
}

/// A mix of directions, against any direction.
proof fn lemma_mix(
    a: (int, int, int),
    b: (int, int, int),
    c: (int, int, int),
    d: (int, int, int),
    ka: int,
    kb: int,
    kc: int,
    kd: int,
    p: (int, int, int),
)
    ensures
        dot(
            (
                ka * a.0 - kb * b.0 - kc * c.0 - kd * d.0,
                ka * a.1 - kb * b.1 - kc * c.1 - kd * d.1,
                ka * a.2 - kb * b.2 - kc * c.2 - kd * d.2,
            ),
            p,
        ) == ka * dot(a, p) - kb * dot(b, p) - kc * dot(c, p) - kd * dot(d, p),
{
    lemma_mix_axis(a.0, b.0, c.0, d.0, ka, kb, kc, kd, p.0);
    lemma_mix_axis(a.1, b.1, c.1, d.1, ka, kb, kc, kd, p.1);
    lemma_mix_axis(a.2, b.2, c.2, d.2, ka, kb, kc, kd, p.2);
    lemma_times_three(ka, a, p);
    lemma_times_three(kb, b, p);
    lemma_times_three(kc, c, p);
    lemma_times_three(kd, d, p);
}

/// One axis of that.
proof fn lemma_mix_axis(
    a: int,
    b: int,
    c: int,
    d: int,
    ka: int,
    kb: int,
    kc: int,
    kd: int,
    p: int,
)
    ensures
        (ka * a - kb * b - kc * c - kd * d) * p == ka * (a * p) - kb * (b * p) - kc * (c * p) - kd
            * (d * p),
{
    assert((ka * a - kb * b - kc * c - kd * d) * p == (ka * a) * p - (kb * b) * p - (kc * c) * p
        - (kd * d) * p) by (nonlinear_arith);
    assert((ka * a) * p == ka * (a * p)) by (nonlinear_arith);
    assert((kb * b) * p == kb * (b * p)) by (nonlinear_arith);
    assert((kc * c) * p == kc * (c * p)) by (nonlinear_arith);
    assert((kd * d) * p == kd * (d * p)) by (nonlinear_arith);
}

/// A product with a dot product.
proof fn lemma_times_three(k: int, a: (int, int, int), p: (int, int, int))
    ensures
        k * dot(a, p) == k * (a.0 * p.0) + k * (a.1 * p.1) + k * (a.2 * p.2),
{
    let (x, y, z): (int, int, int) = (a.0 * p.0, a.1 * p.1, a.2 * p.2);
    assert(k * (x + y + z) == k * x + k * y + k * z) by (nonlinear_arith);
}

/// The dot product does not depend on the order.
proof fn lemma_dot_swapped(a: (int, int, int), b: (int, int, int))
    ensures
        dot(a, b) == dot(b, a),
{
    assert(a.0 * b.0 == b.0 * a.0) by (nonlinear_arith);
    assert(a.1 * b.1 == b.1 * a.1) by (nonlinear_arith);
    assert(a.2 * b.2 == b.2 * a.2) by (nonlinear_arith);
}

/// Seen in the directions of an upright camera, nothing is longer than it is.
pub proof fn law_upright_camera_keeps_lengths(cam: Camera, o: (int, int, int))
    requires
        cam.upright(),
    ensures
        ({
            let (x, y, m) = (dot(cam.right, o), dot(cam.down, o), dot(cam.fwd, o));
            x * x + y * y + m * m <= (cam.unit * cam.unit) * dot(o, o)
        }),
{
    let (x, y, m): (int, int, int) = (dot(cam.right, o), dot(cam.down, o), dot(cam.fwd, o));
    let (uu, oo): (int, int) = (cam.unit * cam.unit, dot(o, o));
    let (r, d, f) = (cam.right, cam.down, cam.fwd);
    // What is left of the way after its three parts.
    let w = (
        uu * o.0 - x * r.0 - y * d.0 - m * f.0,
        uu * o.1 - x * r.1 - y * d.1 - m * f.1,
        uu * o.2 - x * r.2 - y * d.2 - m * f.2,
    );
    lemma_mix(o, r, d, f, uu, x, y, m, o);
    lemma_mix(o, r, d, f, uu, x, y, m, r);
    lemma_mix(o, r, d, f, uu, x, y, m, d);
    lemma_mix(o, r, d, f, uu, x, y, m, f);
    lemma_mix(o, r, d, f, uu, x, y, m, w);
    lemma_dot_swapped(o, r);
    lemma_dot_swapped(o, d);
    lemma_dot_swapped(o, f);
    lemma_dot_swapped(d, r);
    lemma_dot_swapped(r, f);
    lemma_dot_swapped(d, f);
    lemma_dot_swapped(w, o);
    lemma_dot_swapped(w, r);
    lemma_dot_swapped(w, d);
    lemma_dot_swapped(w, f);
    assert(x * 0 == 0 && y * 0 == 0 && m * 0 == 0);
    assert(uu * x == x * uu && uu * y == y * uu && uu * m == m * uu) by (nonlinear_arith);
    assert(dot(w, r) == 0);
    assert(dot(w, d) == 0);
    assert(dot(w, f) == 0);
    let rest: int = uu * oo - (x * x + y * y + m * m);
    assert(dot(w, o) == rest);
    assert(dot(w, w) == uu * rest);
    assert(w.0 * w.0 >= 0) by (nonlinear_arith);
    assert(w.1 * w.1 >= 0) by (nonlinear_arith);
    assert(w.2 * w.2 >= 0) by (nonlinear_arith);
    assert(uu > 0) by (nonlinear_arith)
        requires
            cam.unit > 0,
            uu == cam.unit * cam.unit,
    ;
    assert(rest >= 0) by (nonlinear_arith)
        requires
            uu * rest >= 0,
            uu > 0,
    ;
}

/// Whether a point of a scanline, at the column `x_over` out of `x_under`, lies in
/// a circle on the screen, half a pixel wider than the slope of `over` out of
/// `under` around the projection of `v`. A scanline runs through the middle of
/// its pixels.
pub open spec fn on_chord(
    cam: Camera,
    width: int,
    height: int,
    v: (int, int, int),
    over: int,
    under: int,
    py: int,
    x_over: int,
    x_under: int,
) -> bool {
    let z = dot(cam.fwd, v);
    // Half a pixel, the centre and the radius, all in the same unit.
    let half = cam.tan_over * (z * under);
    let cx = under * (width * (cam.tan_over * z) + height * (cam.tan_under * dot(cam.right, v)));
    let cy = under * (height * (cam.tan_over * z + cam.tan_under * dot(cam.down, v)));
    let radius = height * (cam.tan_under * (over * z));
    let dx = x_over * (2 * half) - x_under * cx;
    let dy = x_under * ((2 * py + 1) * half - cy);
    let r = x_under * (radius + half);
    dx * dx + dy * dy <= r * r
}

/// Whether a crossing's numbers hold a column.
pub open spec fn crossing_holds(c: Crossing, x_over: int, x_under: int) -> bool {
    &&& !c.inside.nan() && !c.lo.nan() && !c.hi.nan()
    &&& c.inside.value() > 0
    &&& c.lo.value() * x_under <= x_over * one() <= c.hi.value() * x_under
}

/// Whether a crossing's numbers hold the chord of the circle. The program's own
/// circle is wider by a whole pixel, so this leaves half a pixel for rounding.
pub open spec fn holds_chord(
    cam: Camera,
    width: int,
    height: int,
    v: (int, int, int),
    over: int,
    under: int,
    py: int,
    c: Crossing,
) -> bool {
    forall|x_over: int, x_under: int|
        x_under > 0 && #[trigger] on_chord(
            cam,
            width,
            height,
            v,
            over,
            under,
            py,
            x_over,
            x_under,
        ) ==> crossing_holds(c, x_over, x_under)
}

/// Moving a point of a circle by no more than `half` leaves it in the wider one.
proof fn lemma_wider_circle(a: int, b: int, r: int, move_by: int, half: int)
    requires
        a * a + b * b <= r * r,
        r >= 0,
        -half <= move_by <= half,
    ensures
        a * a + (b + move_by) * (b + move_by) <= (r + half) * (r + half),
{
    assert(a * a >= 0) by (nonlinear_arith);
    assert(-r <= b <= r) by (nonlinear_arith)
        requires
            b * b <= r * r,
            r >= 0,
    ;
    lemma_square_sum(b, move_by);
    lemma_square_sum(r, half);
    assert(b * move_by <= r * half) by (nonlinear_arith)
        requires
            -r <= b <= r,
            -half <= move_by <= half,
    ;
    assert(move_by * move_by <= half * half) by (nonlinear_arith)
        requires
            -half <= move_by <= half,
    ;
}

/// The projection of a point of the sphere lies, moved to the scanline through
/// the middle of its pixels, in the circle that is half a pixel wider.
proof fn lemma_point_on_chord(
    cam: Camera,
    width: int,
    height: int,
    v: (int, int, int),
    q: (int, int, int),
    over: int,
    under: int,
    py: int,
)
    requires
        cam.wf(),
        height > 0,
        over >= 0,
        under > 0,
        dot(cam.fwd, v) > 0,
        dot(cam.fwd, q) > 0,
        py * row_under(cam, q) <= row(cam, height, q) < (py + 1) * row_under(cam, q),
        ({
            let (z, zq) = (dot(cam.fwd, v), dot(cam.fwd, q));
            let ux = dot(cam.right, q) * z - dot(cam.right, v) * zq;
            let uy = dot(cam.down, q) * z - dot(cam.down, v) * zq;
            (under * under) * (ux * ux + uy * uy) <= (over * (z * zq)) * (over * (z * zq))
        }),
    ensures
        on_chord(
            cam,
            width,
            height,
            v,
            over,
            under,
            py,
            width * (cam.tan_over * dot(cam.fwd, q)) + height * (cam.tan_under * dot(cam.right, q)),
            2 * (cam.tan_over * dot(cam.fwd, q)),
        ),
{
    let (kn, kd): (int, int) = (cam.tan_over, cam.tan_under);
    let (z, xc, yc): (int, int, int) = (dot(cam.fwd, v), dot(cam.right, v), dot(cam.down, v));
    let (zq, xq, yq): (int, int, int) = (dot(cam.fwd, q), dot(cam.right, q), dot(cam.down, q));
    let (ux, uy): (int, int) = (xq * z - xc * zq, yq * z - yc * zq);
    let hk: int = height * kd;
    assert(hk > 0) by (nonlinear_arith)
        requires
            height > 0,
            kd > 0,
            hk == height * kd,
    ;
    let half: int = kn * (z * under);
    let cx: int = under * (width * (kn * z) + height * (kd * xc));
    let cy: int = under * (height * (kn * z + kd * yc));
    let radius: int = height * (kd * (over * z));
    let x_over: int = width * (kn * zq) + height * (kd * xq);
    let x_under: int = 2 * (kn * zq);
    // In the same unit as the point, all with a factor of 2 * kn.
    let (a, b): (int, int) = (under * (hk * ux), under * (hk * uy));
    let (r, f): (int, int) = (hk * (over * (z * zq)), zq * half);
    let bracket: int = (2 * py + 1) * (kn * zq) - row(cam, height, q);
    let move_by: int = (z * under) * bracket;
    lemma_chord_columns(kn, z, under, width, zq, hk, xq, xc);
    assert(height * (kd * xq) == hk * xq) by (nonlinear_arith)
        requires
            hk == height * kd,
    ;
    assert(height * (kd * xc) == hk * xc) by (nonlinear_arith)
        requires
            hk == height * kd,
    ;
    assert(x_over * (2 * half) - x_under * cx == (2 * kn) * a);
    assert(height * (kn * z + kd * yc) == (height * kn) * z + hk * yc) by (nonlinear_arith)
        requires
            hk == height * kd,
    ;
    assert(height * (kn * zq + kd * yq) == (height * kn) * zq + hk * yq) by (nonlinear_arith)
        requires
            hk == height * kd,
    ;
    lemma_chord_rows(kn, z, under, height * kn, zq, hk, yq, yc, 2 * py + 1);
    assert(x_under * ((2 * py + 1) * half - cy) == (2 * kn) * (b + move_by));
    assert(x_under * (radius + half) == (2 * kn) * (r + f)) by {
        assert(radius == hk * (over * z)) by (nonlinear_arith)
            requires
                hk == height * kd,
                radius == height * (kd * (over * z)),
        ;
        assert((2 * (kn * zq)) * (radius + half) == (2 * kn) * (zq * radius) + (2 * kn) * (zq
            * half)) by (nonlinear_arith);
        assert(zq * (hk * (over * z)) == hk * (over * (z * zq))) by (nonlinear_arith);
        assert((2 * kn) * r + (2 * kn) * f == (2 * kn) * (r + f)) by (nonlinear_arith);
    }
    // The point itself lies in the circle.
    let h: int = ux * ux + uy * uy;
    let reach: int = over * (z * zq);
    assert(a * a + b * b == (hk * hk) * ((under * under) * h)) by {
        lemma_product_squared(under, hk, ux);
        lemma_product_squared(under, hk, uy);
        lemma_times_two(under * under, ux * ux, uy * uy);
        lemma_times_two(hk * hk, (under * under) * (ux * ux), (under * under) * (uy * uy));
    }
    assert(r * r == (hk * hk) * (reach * reach)) by (nonlinear_arith)
        requires
            r == hk * reach,
    ;
    let (hh, u2, rr): (int, int, int) = (hk * hk, (under * under) * h, reach * reach);
    assert(hh * u2 <= hh * rr) by (nonlinear_arith)
        requires
            hh == hk * hk,
            u2 <= rr,
    ;
    assert(z * zq > 0) by (nonlinear_arith)
        requires
            z > 0,
            zq > 0,
    ;
    let zz: int = z * zq;
    assert(over * zz >= 0) by (nonlinear_arith)
        requires
            over >= 0,
            zz > 0,
    ;
    assert(r >= 0) by (nonlinear_arith)
        requires
            r == hk * reach,
            hk > 0,
            reach >= 0,
    ;
    // The middle of the pixel is no more than half a pixel away.
    let step: int = kn * zq;
    assert(py * (2 * step) == (2 * py) * step && (py + 1) * (2 * step) == (2 * py) * step + 2 * step
        && (2 * py + 1) * step == (2 * py) * step + step) by (nonlinear_arith);
    assert(-step <= bracket <= step);
    let zu: int = z * under;
    assert(zu > 0) by (nonlinear_arith)
        requires
            z > 0,
            under > 0,
            zu == z * under,
    ;
    assert(-(zu * step) <= zu * bracket <= zu * step) by (nonlinear_arith)
        requires
            zu > 0,
            -step <= bracket <= step,
    ;
    assert(f == zu * step) by (nonlinear_arith)
        requires
            f == zq * half,
            half == kn * zu,
            step == kn * zq,
    ;
    lemma_wider_circle(a, b, r, move_by, f);
    let (c, t, w): (int, int, int) = (2 * kn, b + move_by, r + f);
    assert((c * a) * (c * a) == (c * c) * (a * a)) by (nonlinear_arith);
    assert((c * t) * (c * t) == (c * c) * (t * t)) by (nonlinear_arith);
    assert((c * w) * (c * w) == (c * c) * (w * w)) by (nonlinear_arith);
    let (cc, aa, tt, ww): (int, int, int, int) = (c * c, a * a, t * t, w * w);
    lemma_times_two(cc, aa, tt);
    assert(cc * (aa + tt) <= cc * ww) by (nonlinear_arith)
        requires
            cc == c * c,
            aa + tt <= ww,
    ;
}

/// The square of a product of three.
proof fn lemma_product_squared(a: int, b: int, x: int)
    ensures
        (a * (b * x)) * (a * (b * x)) == (b * b) * ((a * a) * (x * x)),
{
    let c: int = b * x;
    assert((a * c) * (a * c) == (a * a) * (c * c)) by (nonlinear_arith);
    assert((b * x) * (b * x) == (b * b) * (x * x)) by (nonlinear_arith);
    let (aa, bb, xx): (int, int, int) = (a * a, b * b, x * x);
    assert(aa * (bb * xx) == bb * (aa * xx)) by (nonlinear_arith);
}

/// How far a point is from the centre in columns.
proof fn lemma_chord_columns(
    kn: int,
    z: int,
    under: int,
    width: int,
    zq: int,
    hk: int,
    xq: int,
    xc: int,
)
    ensures
        (width * (kn * zq) + hk * xq) * (2 * (kn * (z * under))) - (2 * (kn * zq)) * (under * (width
            * (kn * z) + hk * xc)) == (2 * kn) * (under * (hk * (xq * z - xc * zq))),
{
    let (c, s, t): (int, int, int) = (2 * (kn * under), kn * zq, kn * z);
    assert(2 * (kn * (z * under)) == c * z) by (nonlinear_arith)
        requires
            c == 2 * (kn * under),
    ;
    let (i, j): (int, int) = (width * t + hk * xc, width * s + hk * xq);
    assert((2 * (kn * zq)) * (under * i) == (2 * (kn * under)) * (zq * i)) by (nonlinear_arith);
    assert(j * (c * z) == c * (z * j)) by (nonlinear_arith);
    let (ws, wt, hq, hc): (int, int, int, int) = (width * s, width * t, hk * xq, hk * xc);
    lemma_times_two(z, ws, hq);
    lemma_times_two(zq, wt, hc);
    assert(z * (hk * xq) == hk * (xq * z)) by (nonlinear_arith);
    assert(zq * (hk * xc) == hk * (xc * zq)) by (nonlinear_arith);
    assert(z * (width * (kn * zq)) == zq * (width * (kn * z))) by (nonlinear_arith);
    let (x, y): (int, int) = (xq * z, xc * zq);
    assert(hk * x - hk * y == hk * (x - y)) by (nonlinear_arith);
    let (a, b, d): (int, int, int) = (
        z * (width * s + hk * xq),
        zq * (width * t + hk * xc),
        hk * (x - y),
    );
    assert(c * a - c * b == c * d) by (nonlinear_arith)
        requires
            a - b == d,
    ;
    assert(c * d == (2 * kn) * (under * d)) by (nonlinear_arith)
        requires
            c == 2 * (kn * under),
    ;
}

/// How far the middle of a scanline is from the centre, by way of a point.
proof fn lemma_chord_rows(
    kn: int,
    z: int,
    under: int,
    hn: int,
    zq: int,
    hk: int,
    yq: int,
    yc: int,
    line: int,
)
    ensures
        (2 * (kn * zq)) * (line * (kn * (z * under)) - under * (hn * z + hk * yc)) == (2 * kn) * (
        under * (hk * (yq * z - yc * zq)) + (z * under) * (line * (kn * zq) - (hn * zq + hk * yq))),
{
    let (l1, l2): (int, int) = (line * (kn * (z * under)), under * (hn * z + hk * yc));
    assert((2 * (kn * zq)) * (l1 - l2) == (2 * kn) * (zq * l1 - zq * l2)) by (nonlinear_arith);
    assert(zq * (line * (kn * (z * under))) == (z * under) * (line * (kn * zq))) by (nonlinear_arith);
    let (hz, hy): (int, int) = (hn * z, hk * yc);
    assert(zq * (under * (hz + hy)) == under * (hz * zq) + under * (hy * zq)) by (nonlinear_arith);
    assert((hn * z) * zq == hn * (z * zq)) by (nonlinear_arith);
    assert((hk * yc) * zq == hk * (yc * zq)) by (nonlinear_arith);
    let (hq, hp): (int, int) = (hn * zq, hk * yq);
    assert((z * under) * (hq + hp) == under * (hq * z) + under * (hp * z)) by (nonlinear_arith);
    assert((hn * zq) * z == hn * (z * zq)) by (nonlinear_arith);
    assert((hk * yq) * z == hk * (yq * z)) by (nonlinear_arith);
    let (x, y): (int, int) = (yq * z, yc * zq);
    assert(under * (hk * (x - y)) == under * (hk * x) - under * (hk * y)) by (nonlinear_arith);
    let (zu, a, b): (int, int, int) = (z * under, line * (kn * zq), hn * zq + hk * yq);
    assert(zu * (a - b) == zu * a - zu * b) by (nonlinear_arith);
    assert(zq * l1 - zq * l2 == under * (hk * (yq * z - yc * zq)) + (z * under) * (line * (kn * zq)
        - (hn * zq + hk * yq)));
}

/// The run of a sphere on a scanline holds every pixel in which a point of the
/// sphere is seen, off to one side too. The circle around the projected centre
/// takes in the far rim, and the crossing's numbers hold its chord. `v` is the
/// centre, no more than `side` off the axis in units of the camera's directions,
/// and `o` the way from there to the point.
pub proof fn law_run_holds_sphere(
    cam: Camera,
    width: int,
    height: int,
    v: (int, int, int),
    side: int,
    radius: int,
    o: (int, int, int),
    over: int,
    under: int,
    c: Crossing,
    px: int,
    py: int,
)
    requires
        cam.wf() && cam.upright() && cam.fits(width, height),
        height > 0,
        dot(cam.fwd, v) > 0,
        side >= 0,
        dot(cam.right, v) * dot(cam.right, v) + dot(cam.down, v) * dot(cam.down, v) <= side * side,
        radius >= 0,
        dot(o, o) <= radius * radius,
        over >= 0,
        under > 0,
        takes_in_rim(dot(cam.fwd, v), side, cam.unit * radius, over, under),
        holds_chord(cam, width, height, v, over, under, py, c),
        seen_at(cam, width, height, off(v, o), px, py),
        0 <= px < SCREEN_WIDTH,
    ensures
        span_of(c) matches Some(s) && s.has(px),
{
    let q = off(v, o);
    let (z, xc, yc): (int, int, int) = (dot(cam.fwd, v), dot(cam.right, v), dot(cam.down, v));
    let (m, xo, yo): (int, int, int) = (dot(cam.fwd, o), dot(cam.right, o), dot(cam.down, o));
    let (zq, xq, yq): (int, int, int) = (dot(cam.fwd, q), dot(cam.right, q), dot(cam.down, q));
    lemma_dot_off(cam.fwd, v, o);
    lemma_dot_off(cam.right, v, o);
    lemma_dot_off(cam.down, v, o);
    // The sphere, in the camera's directions.
    law_upright_camera_keeps_lengths(cam, o);
    let (uu, oo, rr, big): (int, int, int, int) = (
        cam.unit * cam.unit,
        dot(o, o),
        radius * radius,
        cam.unit * radius,
    );
    assert(uu * oo <= uu * rr) by (nonlinear_arith)
        requires
            uu == cam.unit * cam.unit,
            oo <= rr,
    ;
    assert(uu * rr == big * big) by (nonlinear_arith)
        requires
            uu == cam.unit * cam.unit,
            rr == radius * radius,
            big == cam.unit * radius,
    ;
    law_rim_circle_takes_in_sphere(xc, yc, z, side, big, xo, yo, m, over, under);
    assert(xq * z - xc * zq == xo * z - xc * m) by (nonlinear_arith)
        requires
            xq == xc + xo,
            zq == z + m,
    ;
    assert(yq * z - yc * zq == yo * z - yc * m) by (nonlinear_arith)
        requires
            yq == yc + yo,
            zq == z + m,
    ;
    lemma_point_on_chord(cam, width, height, v, q, over, under, py);
    let (kn, kd, an, ad): (int, int, int, int) = (
        cam.tan_over,
        cam.tan_under,
        cam.aspect_over,
        cam.aspect_under,
    );
    let x_over: int = width * (kn * zq) + height * (kd * xq);
    let x_under: int = 2 * (kn * zq);
    assert(x_under > 0) by (nonlinear_arith)
        requires
            kn > 0,
            zq > 0,
            x_under == 2 * (kn * zq),
    ;
    assert(crossing_holds(c, x_over, x_under));
    // The column, with the aspect ratio cancelled.
    assert(width * ((kn * an) * zq) == an * (width * (kn * zq))) by (nonlinear_arith);
    assert(width * ((kd * ad) * xq) == an * (height * (kd * xq))) by (nonlinear_arith)
        requires
            width * ad == height * an,
    ;
    assert(width * ((kn * an) * zq + (kd * ad) * xq) == width * ((kn * an) * zq) + width * ((kd * ad)
        * xq)) by (nonlinear_arith);
    assert(an * (width * (kn * zq)) + an * (height * (kd * xq)) == an * x_over) by (nonlinear_arith)
        requires
            x_over == width * (kn * zq) + height * (kd * xq),
    ;
    assert(column(cam, width, q) == an * x_over);
    assert(column_under(cam, q) == an * x_under) by (nonlinear_arith)
        requires
            column_under(cam, q) == 2 * ((kn * an) * zq),
            x_under == 2 * (kn * zq),
    ;
    lemma_column_holds(px, an, x_over, x_under, c.lo.value(), c.hi.value());
    law_span_touches_columns(c, px);
}

/// A column between the crossing's numbers lies in a pixel that they touch.
proof fn lemma_column_holds(px: int, an: int, x_over: int, x_under: int, lo: int, hi: int)
    requires
        an > 0,
        x_under > 0,
        px * (an * x_under) <= an * x_over < (px + 1) * (an * x_under),
        lo * x_under <= x_over * one() <= hi * x_under,
    ensures
        lo < (px + 1) * one(),
        px * one() <= hi,
{
    lemma_pow2_pos(149);
    let u: int = one();
    assert(px * (an * x_under) == an * (px * x_under)) by (nonlinear_arith);
    assert((px + 1) * (an * x_under) == an * ((px + 1) * x_under)) by (nonlinear_arith);
    let (first, next): (int, int) = (px * x_under, (px + 1) * x_under);
    assert(first <= x_over && x_over < next) by (nonlinear_arith)
        requires
            an * first <= an * x_over,
            an * x_over < an * next,
            an > 0,
    ;
    assert(first * u <= x_over * u && x_over * u < next * u) by (nonlinear_arith)
        requires
            first <= x_over,
            x_over < next,
            u > 0,
    ;
    assert(next * u == ((px + 1) * u) * x_under) by (nonlinear_arith)
        requires
            next == (px + 1) * x_under,
    ;
    assert(first * u == (px * u) * x_under) by (nonlinear_arith)
        requires
            first == px * x_under,
    ;
    let (a, b): (int, int) = ((px + 1) * u, px * u);
    assert(lo < a) by (nonlinear_arith)
        requires
            lo * x_under < a * x_under,
            x_under > 0,
    ;
    assert(b <= hi) by (nonlinear_arith)
        requires
            b * x_under <= hi * x_under,
            x_under > 0,
    ;
}

/// A dot product with a place some way off another.
proof fn lemma_dot_off(a: (int, int, int), v: (int, int, int), o: (int, int, int))
    ensures
        dot(a, off(v, o)) == dot(a, v) + dot(a, o),
{
    lemma_times_two(a.0, v.0, o.0);
    lemma_times_two(a.1, v.1, o.1);
    lemma_times_two(a.2, v.2, o.2);
}

/// What the run of any one crossing of a scanline holds is covered, and so gets a
/// ray or is filled in between two.
pub proof fn law_run_is_covered(crossings: Seq<Crossing>, i: int, s: Span, px: int)
    requires
        0 <= i < crossings.len(),
        span_of(crossings[i]) == Some(s),
        s.has(px),
    ensures
        covered(spans_of(crossings), px),
    decreases crossings.len(),
{
    let fewer = crossings.drop_last();
    let list = spans_of(crossings);
    if i == crossings.len() - 1 {
        assert(list[list.len() - 1].has(px));
    } else {
        assert(fewer[i] == crossings[i]);
        law_run_is_covered(fewer, i, s, px);
        let k = choose|k: int|
            0 <= k < spans_of(fewer).len() && #[trigger] spans_of(fewer)[k].has(px);
        assert(list[k].has(px));
    }
}

} // verus!
