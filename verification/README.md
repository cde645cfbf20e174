# gloom

The verified core of a small OpenGL playground (a window, a camera that
walks with W A S D, turns with H L, tilts with K J and flies with R F, and a
reader for Wavefront OBJ models).

* `src/` is the library, checked by Verus:
  * `text`: whitespace, lines, words and `/`-separated pieces of a text;
  * `numbers`: the syntax of floating-point literals and of `u32` values;
  * `obj`: reading OBJ text into an `ObjBuilder`, which faults a line has,
    and the laws of reading (every coordinate is a number, reading a
    concatenation is reading its parts, reading only appends);
  * `input`: the keys held down, when the event loop stops, and which
    camera motion a key asks for;
  * `gl_debug`: which OpenGL debug reports stop the program;
  * `transform`: the layout of the rotation matrices about an axis, and
    that they are orthogonal.
* `app/` is the program: the window and event loop, the render thread, the
  OpenGL calls, file reading, and the floating-point matrices.
* `tests/` runs the library on concrete inputs.
