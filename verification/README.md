# chip8

A Chip8 virtual machine whose processor, memory and screen are verified with Verus.

- `src/hardware/machine.rs`: the abstract machine state and `step`, the meaning of
  every instruction; laws about sequences of instructions.
- `src/hardware/cpu.rs`: the processor (`Cpu`): fetching, executing, timers, keypad.
  Every operation is proved to behave as `step` and the timer specifications say and to
  keep the processor's invariant (the frame always shows the cells).
- `src/hardware/sprite.rs`: the proof that drawing a sprite cell by cell gives `draw`.
- `src/hardware/memory.rs`: 4 KiB of RAM with the hexadecimal font, and the call stack.
- `src/graphics/grid.rs`: the 64 x 32 cell screen and its RGBA frame buffer.
- `src/graphics/display.rs`, `src/system/emulator.rs`: keypad events, registers,
  start-up arguments.
- `app/`: the program around the library: command line, ROM file, window, keyboard,
  and the emulation loop.

Run it with `chip8 --rom path/to/rom [--delay ms]`.
