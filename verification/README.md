# psp_raytracer

A real-time ray tracer for the Sony PSP: four spheres orbiting over an infinite
checkerboard, with one reflection bounce and hard shadows. The graphics engine
draws the floor and the sky; the spheres are traced on the CPU into a buffer that
the engine puts over them. A second renderer draws the spheres as triangles whose
shading was traced into small textures. With a file `ms0:/benchmark` the run ends
after 300 frames and leaves its numbers in `ms0:/raytracer-result.json`; without
it the two renderers take turns every six seconds, and L and R pick one.

## Layout

- `src/` is a library verified with Verus. It holds what the demo decides and lays
  out: which pixels of a scanline get a ray, how a row is filled in between the
  rays, what a ray hits, where the floor is light, how colours are packed and
  blended, which vertices the graphics engine is handed, how a run goes, and the
  text of its report. Each function has a contract; the functions named `law_..`
  prove what holds across them.
- `app/` is the program: geometry and light in hardware floating point, and the
  calls into the PSP.
- `tests/` runs the library on concrete values.

## Numbers

The library has no floating point. The program hands it the bit patterns of its
results as `Binary32`, whose contracts speak of the exact value of a pattern: an
integer in units of 2^-149. Comparisons and conversions to whole numbers are those
of the hardware, proved for every pattern, infinities and non-numbers among them.
The scene is given in thousandths, which the program divides out.

What the geometry is meant to give is stated in exact integers, as fine as one
likes: that the spheres stay in their bound and above the floor, that the bound
only saves time, and that rectangles and runs of pixels hold every pixel in which
a sphere is seen. These laws leave half a pixel for rounding.

Not covered by proofs: the accuracy of the floating-point geometry itself, and the
hardware.
