# tlottie

GPU backends of a Lottie renderer, built around a library whose logic is
proved with Verus.

- `src/` is the verified library. It holds everything the Vulkan and OpenGL
  backends decide: recording of evaluated frames (layers, fills, masks,
  mattes), the point arena and geometry cache that keep contours resident
  between frames, gradient table interning, per-paint draw data, the packed
  scene of the compute rasterizer and its retained layout, which scene words
  to upload, bin reuse, the triangle path's upload layout and draw order,
  transfer barriers, rectangle fills, framebuffer caching, and the host's
  queue, memory and readback choices. Public proof functions state the laws
  that tie these operations together (what a second frame uploads, what a
  layer round trip records, what interning the same table twice yields).
- `tests/` runs the library on concrete inputs.
- `app/` is the device side: Vulkan pipelines, descriptor sets, command
  recording and the command-line host (through `ash`), OpenGL presentation
  (through `glow`), and the floating-point comparisons of contours with
  their resident points, whose results the library takes as plain bit
  patterns.
