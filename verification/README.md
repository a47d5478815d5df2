# evremap

Remaps the keys of a Linux input device. Three kinds of mapping are configured:

- `dual_role`: a key acts as some keys while it is held, and as others when it is tapped, that is,
  released within a fifth of a second with no other key pressed meanwhile;
- `remap`: a chord of keys acts as other keys;
- `modifier_keys`: keys that are pressed first and released last, that several chords may share,
  and that hide the keys pressed before them.

`src/` is the library, verified with Verus. It is free of I/O: `InputMapper` takes in an event and
answers with the actions to carry out, and is told of each one that has succeeded.

- `event`: events and their timestamps
- `keys`: sets and lists of keys, and the order of modifiers
- `mapping`: mappings and configurations
- `model`: the mathematical model that the contracts speak of
- `remapper`: the mapper
- `laws`: what is proved of the mapper as a whole

What is trusted is stated on the three functions of `event` that call `evdevil`.

`app/` reads configurations from TOML and runs a mapper between an input device and a uinput device.
