# stegshare

A peer-to-peer picture sharing system in which pictures travel in
datagram-sized fragments, servers hide them in the alpha channel of a carrier
image, and every hidden picture carries a counter of how often it may still be
viewed.

`src/` is the verified library (Verus):

- `fragment`: cutting a picture into labelled fragments, padding fixed-size packets;
- `reassembly`: storing received pieces by key and putting the picture back
  together, with the proofs that fragments sent in order give the picture back;
- `padding`: removing trailing zero bytes;
- `payload` and `codec`: the base64 text hidden in a carrier's alpha channel
  (with the encoding written out and shown to be one-to-one), and the view
  counter at the start of a hidden payload;
- `wire`: counts and view grants as big-endian bytes, prefix tests;
- `text`, `directory`: trimming and splitting addresses, registered users,
  menu choices, picture file names;
- `server`: the directory and picture-hiding server, with the laws of the
  directory's answer and of serving one client at a time;
- `bully`: the server that elects a coordinator by id, and the coordinator it announces;
- `middleware`: where a client's middleware forwards fragments;
- `peer`: what peers ask each other, and the owner's yes/no answer;
- `picture`: the catalog preview of a picture and the decoding of received
  picture bytes.

`app/` holds the programs around it (sockets, files, images, prompts), chosen
by the first command-line argument: `client1`, `client2`, `server1`,
`server2` or `listener`.
