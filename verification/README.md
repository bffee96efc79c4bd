# largo_core

The verified core of Largo, a live-coding audio engine: an RNBO patch renders
audio through cpal, a Steel Lisp engine runs the user's scripts and plugins,
and OSC messages over UDP are handed to a Lisp handler.

`src/` is the library, verified with Verus:

- `requirements` reads the `;; @require: <plugin>` lines of a plugin script.
- `load_order` orders the plugins: a plugin after the plugins it requires,
  ties to the least name, plugins on circular requirements last in name order.
  `load_order_laws` proves that this order is unique, a permutation of the
  plugins, and respects every requirement when there is no circle.
- `scripts` picks the `.scm` files and builds the `(load "...")` expressions.
- `osc` decodes datagrams with `rosc` and builds the `(on-osc-event ...)` call.
- `commands` and `command_queue` carry parameter changes and the stop request
  from the Lisp side to the audio thread over a `ringbuf` channel, and plan
  each audio block.
- `text` holds the character helpers and the order on names.

`app/` is the program around it: devices, sockets, files, the Lisp engine, the
FFI to the patch and the floating-point sample work, plus the example programs.
`tests/` runs the library on concrete inputs.
