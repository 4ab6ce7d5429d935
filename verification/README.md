# audio_router

A guitar audio router for a Raspberry Pi with a JACK server: one captured
input is routed to several audio buses; each enabled bus runs a chain of
effects (gain, low-pass filter, reverb, delay) and plays the result on its
own output. Hardware control inputs (a rotary encoder, laser distance sensors
behind light barriers) drive live effect parameters, and VCSGP messages (one
JSON object per line on TCP port 31628) enable buses and rebuild their effect
chains.

## Layout

- `src/` is the verified library (Verus): the control plane.
  - `audio_effects` – effect settings, which parameters are live, setting
    and reading them by name.
  - `audio_bus` – a bus: id, enabled flag, effect chain with slot numbers
    that are never reused, controls addressed by slot, the buffer that
    cuts incoming samples into chunks, and the table that keeps one
    processing node per slot.
  - `routing_director` – the bus registry: ids `bus_<n>` from a bus
    numbering that all routers share and every creation attempt advances,
    enabling and disabling by id, and which buses receive the input.
  - `vcsgp` – configuration messages and what applying one does.
  - `control_input` – control changes, the observer registry of a control
    input, the rotary encoder decoder and the laser reading scale.
  - `text`, `error` – decimal names, string equality, the error type.
- `app/` is the program around it: JACK streams, ring buffers and threads,
  the floating point signal processing (fundsp), GPIO and I2C sensors,
  the TCP listener with JSON parsing, and logging.
- `tests/` exercises the library.
